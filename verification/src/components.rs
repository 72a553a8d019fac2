//! Component types of the entity-component world.
//!
//! Each entity holds at most one instance of each component; absence
//! is meaningful.  Rendering hints (text, images, offsets) are inert
//! payload: the simulation preserves them but never interprets them.
//! Offsets and font sizes are stored in tenths of a tile, so that the
//! presentation data stays in whole numbers.
use vstd::prelude::*;

verus! {

/// Grid position of an entity, in whole tiles.
#[derive(Clone, Copy, PartialEq, Eq, Structural, Debug)]
pub struct Location {
    pub x: i32,
    pub y: i32,
}

/// Frame-rate bookkeeping shown by the client overlay.
#[derive(Clone, Copy, PartialEq, Eq, Structural, Debug)]
pub struct FPSTracker {
    pub for_time: u64,
    pub seen_frames: u16,
    pub prev_fps: u16,
}

/// Marks an entity as a player avatar; `id` is the stable session key
/// that re-associates a reconnecting client with its avatar.
#[derive(Clone, PartialEq, Debug)]
pub struct PlayerInfo {
    pub id: String,
}

/// Draw-order hint; lower orders are drawn in front.
#[derive(Clone, Copy, PartialEq, Eq, Structural, Debug)]
pub struct Renderable {
    pub render_order: i32,
}

/// A text label; sizes and offsets in tenths of a tile.
#[derive(Clone, PartialEq, Debug)]
pub struct TextRenderable {
    pub text: String,
    pub font_size: i32,
    pub offset_x: i32,
    pub offset_y: i32,
}

/// A chat bubble; offsets in tenths of a tile.
#[derive(Clone, PartialEq, Debug)]
pub struct ChatRenderable {
    pub text: String,
    pub offset_x: i32,
    pub offset_y: i32,
}

/// An image reference; offsets in tenths of a tile.
#[derive(Clone, PartialEq, Debug)]
pub struct GraphicRenderable {
    pub image_name: String,
    pub offset_x: i32,
    pub offset_y: i32,
}

/// A cyclic animation over a non-empty list of image names.
#[derive(Clone, PartialEq, Debug)]
pub struct GraphicAnimatable {
    pub image_names: Vec<String>,
    pub tick_interval: i16,
    pub ticks: i16,
}

/// Intent: this entity should move toward `(x, y)` at `speed` tiles
/// per tick.  The intent persists until the target is reached.
#[derive(Clone, Copy, PartialEq, Eq, Structural, Debug)]
pub struct WantsToMoveTo {
    pub x: i32,
    pub y: i32,
    pub speed: i16,
}

/// Countdown to deletion: the entity is removed once `ticks_left`
/// reaches zero, unless it still wants to be picked up.
#[derive(Clone, Copy, PartialEq, Eq, Structural, Debug)]
pub struct Disappearing {
    pub total_ticks: u32,
    pub ticks_left: u32,
}

/// Non-owning relation: this entity follows the owner's location and
/// is cascade-deleted with the owner.
#[derive(Clone, Copy, PartialEq, Eq, Structural, Debug)]
pub struct CarriedBy {
    pub owner: u64,
}

/// Marker: the entity can be picked up; suppresses decay while present.
#[derive(Clone, Copy, PartialEq, Eq, Structural, Debug)]
pub struct WantsToBePickedUp {
}

/// Marker: the entity eliminates nearby players while carried.
#[derive(Clone, Copy, PartialEq, Eq, Structural, Debug)]
pub struct WantsToStab {
}

/// The four phases of the crab behaviour cycle.
#[derive(Clone, Copy, PartialEq, Eq, Structural, Debug)]
pub enum CrabAIState {
    WalkingRight,
    SleepingRight,
    WalkingLeft,
    SleepingLeft,
}

/// Finite-state driver for ambient crabs.
#[derive(Clone, Copy, PartialEq, Eq, Structural, Debug)]
pub struct CrabAI {
    pub crab_state: CrabAIState,
    pub tick_interval: i16,
    pub ticks: i16,
    pub walk_speed: i16,
    pub sleep_duration: i16,
}

} // verus!

verus! {

/// Ghost view of a text label.
#[verifier::ext_equal]
pub ghost struct TextV {
    pub text: Seq<char>,
    pub font_size: i32,
    pub offset_x: i32,
    pub offset_y: i32,
}

/// Ghost view of a chat bubble.
#[verifier::ext_equal]
pub ghost struct ChatV {
    pub text: Seq<char>,
    pub offset_x: i32,
    pub offset_y: i32,
}

/// Ghost view of an image reference.
#[verifier::ext_equal]
pub ghost struct GraphicV {
    pub image_name: Seq<char>,
    pub offset_x: i32,
    pub offset_y: i32,
}

/// Ghost view of an animation.
#[verifier::ext_equal]
pub ghost struct AnimV {
    pub image_names: Seq<Seq<char>>,
    pub tick_interval: i16,
    pub ticks: i16,
}

impl View for PlayerInfo {
    type V = Seq<char>;

    open spec fn view(&self) -> Seq<char> {
        self.id@
    }
}

impl View for TextRenderable {
    type V = TextV;

    open spec fn view(&self) -> TextV {
        TextV {
            text: self.text@,
            font_size: self.font_size,
            offset_x: self.offset_x,
            offset_y: self.offset_y,
        }
    }
}

impl View for ChatRenderable {
    type V = ChatV;

    open spec fn view(&self) -> ChatV {
        ChatV { text: self.text@, offset_x: self.offset_x, offset_y: self.offset_y }
    }
}

impl View for GraphicRenderable {
    type V = GraphicV;

    open spec fn view(&self) -> GraphicV {
        GraphicV {
            image_name: self.image_name@,
            offset_x: self.offset_x,
            offset_y: self.offset_y,
        }
    }
}

impl View for GraphicAnimatable {
    type V = AnimV;

    open spec fn view(&self) -> AnimV {
        AnimV {
            image_names: Seq::new(self.image_names@.len(), |i: int| self.image_names@[i]@),
            tick_interval: self.tick_interval,
            ticks: self.ticks,
        }
    }
}

} // verus!
