//! Entity construction and player lifecycle: spawning crabs, items
//! and effects, finding players by their session id, and the cascade
//! that removes a player together with everything it carries.
use vstd::prelude::*;

use crate::components::{
    CarriedBy, TextV, ChatRenderable, CrabAI, CrabAIState, Disappearing, FPSTracker, GraphicAnimatable,
    GraphicRenderable, Location, PlayerInfo, Renderable, TextRenderable, WantsToBePickedUp,
    WantsToStab,
};
use crate::rng::Pcg32;
use crate::terrain::{get_random_location_of_tile, TileMap, TileType};
use crate::world::{
    carries_ok, clone_string, has_id, idx_of, lemma_idx_of, rec_of, rec_wf, EntityRecord, RecV,
    World,
};
use crate::weapons::carried_with_owner;

verus! {

/// Room in both identity allocators for `k` more entities.
pub open spec fn has_room(w: World, k: int) -> bool {
    w.next_id + k <= u64::MAX && w.next_marker + k <= u64::MAX
}

/// The record of a mushroom cloud left where a player vanished.
pub open spec fn mushroom_cloud_rec(loc: Location, nid: u64, nm: u64) -> RecV {
    RecV {
        id: nid,
        marker: nm,
        location: Option::Some(loc),
        renderable: Option::Some(Renderable { render_order: 0 }),
        graphic_renderable: Option::Some(
            crate::components::GraphicV {
                image_name: "mushroom_cloud"@,
                offset_x: 0i32,
                offset_y: 0i32,
            },
        ),
        disappearing: Option::Some(Disappearing { total_ticks: 20, ticks_left: 20 }),
        ..RecV::spec_empty()
    }
}

/// The record of a chat bubble carried by a player.
pub open spec fn chat_bubble_rec(text: Seq<char>, owner: u64, nid: u64, nm: u64) -> RecV {
    RecV {
        id: nid,
        marker: nm,
        carried_by: Option::Some(CarriedBy { owner }),
        renderable: Option::Some(Renderable { render_order: 0 }),
        chat_renderable: Option::Some(
            crate::components::ChatV { text, offset_x: -20i32, offset_y: -100i32 },
        ),
        disappearing: Option::Some(Disappearing { total_ticks: 100, ticks_left: 100 }),
        ..RecV::spec_empty()
    }
}

/// The record of a freshly spawned crab avatar.
pub open spec fn crab_avatar_rec(
    idt: Seq<char>,
    name: Seq<char>,
    loc: Location,
    cai: Option<CrabAI>,
    nid: u64,
    nm: u64,
) -> RecV {
    RecV {
        id: nid,
        marker: nm,
        location: Option::Some(loc),
        player_info: Option::Some(idt),
        renderable: Option::Some(Renderable { render_order: 2 }),
        text_renderable: Option::Some(
            TextV { text: name, font_size: 200i32, offset_x: 0i32, offset_y: 40i32 },
        ),
        graphic_renderable: Option::Some(
            crate::components::GraphicV {
                image_name: "rustacean_right"@,
                offset_x: 0i32,
                offset_y: 0i32,
            },
        ),
        graphic_animatable: Option::Some(
            crate::components::AnimV {
                image_names: seq!["rustacean_right"@, "rustacean_left"@],
                tick_interval: 2,
                ticks: 0,
            },
        ),
        crab_ai: cai,
        ..RecV::spec_empty()
    }
}

/// The record of a drop shadow carried by an avatar.
pub open spec fn drop_shadow_rec(owner: u64, nid: u64, nm: u64) -> RecV {
    RecV {
        id: nid,
        marker: nm,
        carried_by: Option::Some(CarriedBy { owner }),
        renderable: Option::Some(Renderable { render_order: 4 }),
        graphic_renderable: Option::Some(
            crate::components::GraphicV {
                image_name: "drop_shadow"@,
                offset_x: 0i32,
                offset_y: 0i32,
            },
        ),
        ..RecV::spec_empty()
    }
}

/// The record of a fading beach wave carried by a human avatar.
pub open spec fn wave_rec(owner: u64, nid: u64, nm: u64) -> RecV {
    RecV {
        id: nid,
        marker: nm,
        carried_by: Option::Some(CarriedBy { owner }),
        renderable: Option::Some(Renderable { render_order: 0 }),
        graphic_renderable: Option::Some(
            crate::components::GraphicV {
                image_name: "water_wave_0"@,
                offset_x: 0i32,
                offset_y: 0i32,
            },
        ),
        graphic_animatable: Option::Some(
            crate::components::AnimV {
                image_names: seq![
                    "water_wave_0"@,
                    "water_wave_1"@,
                    "water_wave_2"@,
                    "water_wave_2"@,
                ],
                tick_interval: 3,
                ticks: 0,
            },
        ),
        disappearing: Option::Some(Disappearing { total_ticks: 15, ticks_left: 15 }),
        ..RecV::spec_empty()
    }
}

/// The record of a palm tree.
pub open spec fn tree_rec(x: i32, y: i32, nid: u64, nm: u64) -> RecV {
    RecV {
        id: nid,
        marker: nm,
        location: Option::Some(Location { x, y }),
        renderable: Option::Some(Renderable { render_order: 4 }),
        text_renderable: Option::Some(
            TextV { text: "\u{1F334}"@, font_size: 400i32, offset_x: -5i32, offset_y: 0i32 },
        ),
        ..RecV::spec_empty()
    }
}

/// The record of a knife waiting on the ground.
pub open spec fn knife_rec(x: i32, y: i32, nid: u64, nm: u64) -> RecV {
    RecV {
        id: nid,
        marker: nm,
        location: Option::Some(Location { x, y }),
        renderable: Option::Some(Renderable { render_order: 3 }),
        text_renderable: Option::Some(
            TextV { text: "\u{1F52A}"@, font_size: 400i32, offset_x: 25i32, offset_y: 20i32 },
        ),
        wants_to_be_picked_up: true,
        wants_to_stab: true,
        ..RecV::spec_empty()
    }
}

/// The record of a dropping at a player's feet.
pub open spec fn poop_rec(loc: Location, nid: u64, nm: u64) -> RecV {
    RecV {
        id: nid,
        marker: nm,
        location: Option::Some(loc),
        renderable: Option::Some(Renderable { render_order: 3 }),
        text_renderable: Option::Some(
            TextV { text: poop_glyph(), font_size: 200i32, offset_x: 0i32, offset_y: 30i32 },
        ),
        disappearing: Option::Some(Disappearing { total_ticks: 100, ticks_left: 100 }),
        ..RecV::spec_empty()
    }
}

/// The record of the frame-rate overlay: its label shows the
/// previous second's frame count.
pub open spec fn fps_rec(t: FPSTracker, nid: u64, nm: u64) -> RecV {
    RecV {
        id: nid,
        marker: nm,
        fps_tracker: Option::Some(t),
        location: Option::Some(Location { x: 0, y: 5 }),
        renderable: Option::Some(Renderable { render_order: 0 }),
        text_renderable: Option::Some(
            TextV {
                text: "FPS: "@ + crate::codec::dec_string(t.prev_fps as nat),
                font_size: 200i32,
                offset_x: 0i32,
                offset_y: 0i32,
            },
        ),
        ..RecV::spec_empty()
    }
}

/// Find the player entity that carries this session id.
pub fn get_player_with_id(ecs: &World, player_id: &String) -> (r: Option<u64>)
    requires
        ecs.wf(),
    ensures
        r matches Option::Some(e) ==> has_id(ecs@, e) && rec_of(ecs@, e).player_info
            == Option::Some(player_id@),
        r is None ==> forall|i: int|
            0 <= i < ecs@.len() ==> (#[trigger] ecs@[i]).player_info != Option::Some(player_id@),
{
    let mut i: usize = 0;
    while i < ecs.ents.len()
        invariant
            ecs.wf(),
            i <= ecs@.len(),
            ecs@.len() == ecs.ents@.len(),
            forall|j: int|
                0 <= j < i ==> (#[trigger] ecs@[j]).player_info != Option::Some(player_id@),
        decreases ecs@.len() - i,
    {
        let is_match = match &ecs.ents[i].player_info {
            Option::Some(p) => {
                let eq = p.id == *player_id;
                eq
            },
            Option::None => false,
        };
        if is_match {
            let e = ecs.ents[i].id;
            proof {
                assert(ecs@[i as int].id == e);
                assert(has_id(ecs@, e));
                lemma_idx_of(ecs@, e);
                let ix = idx_of(ecs@, e);
                if ix < i as int {
                    assert(ecs@[ix].id == e);
                    assert(crate::world::ids_unique(ecs@));
                    assert(false);
                }
                if ix > i as int {
                    assert(ecs@[ix].id == e);
                    assert(crate::world::ids_unique(ecs@));
                    assert(false);
                }
                assert(rec_of(ecs@, e) == ecs@[i as int]);
            }
            return Option::Some(e);
        }
        i = i + 1;
    }
    Option::None
}

/// An id is queued by the player cascade: the player itself or
/// anything it carries.
pub open spec fn cascade_queued(s: Seq<RecV>, p0: Seq<u64>, victim: u64, id: u64) -> bool {
    p0.contains(id) || id == victim || exists|k: int|
        0 <= k < s.len() && (#[trigger] s[k]).id == id && carried_with_owner(s[k], victim)
}

/// Queue a player and everything it carries for deletion: the
/// cascade set is computed before anything is queued, so later
/// deletions never invalidate earlier lookups.
pub fn delete_player(ecs: &mut World, player_entity: u64)
    requires
        old(ecs).wf(),
    ensures
        final(ecs).wf(),
        final(ecs).ents == old(ecs).ents,
        final(ecs)@ == old(ecs)@,
        final(ecs).next_id == old(ecs).next_id,
        final(ecs).next_marker == old(ecs).next_marker,
        forall|id: u64|
            #[trigger] final(ecs).pending@.contains(id) <==> cascade_queued(
                old(ecs)@,
                old(ecs).pending@,
                player_entity,
                id,
            ),
{
    let ghost origv = ecs@;
    let ghost pend0 = ecs.pending@;
    let n = ecs.ents.len();
    let mut k: usize = 0;
    while k < n
        invariant
            origv == old(ecs)@,
            ecs.ents == old(ecs).ents,
            ecs.next_id == old(ecs).next_id,
            ecs.next_marker == old(ecs).next_marker,
            n == origv.len(),
            k <= n,
            forall|id: u64|
                #[trigger] ecs.pending@.contains(id) <==> (pend0.contains(id) || exists|kk: int|
                    0 <= kk < k && (#[trigger] origv[kk]).id == id && carried_with_owner(
                        origv[kk],
                        player_entity,
                    )),
        decreases n - k,
    {
        let mut deleted_here = false;
        let ghost prepend = ecs.pending@;
        let co = match ecs.ents[k].carried_by {
            Option::Some(c) => Option::Some(c.owner),
            Option::None => Option::None,
        };
        if let Option::Some(owner) = co {
            if owner == player_entity {
                let kid = ecs.ents[k].id;
                ecs.delete_entity(kid);
                deleted_here = true;
                proof {
                    assert(origv[k as int].id == kid);
                    assert(carried_with_owner(origv[k as int], player_entity));
                    assert forall|id: u64|
                        #[trigger] ecs.pending@.contains(id) <==> (prepend.contains(id) || id
                            == kid) by {
                        crate::weapons::lemma_push_contains(prepend, kid, id);
                    }
                }
            }
        }
        proof {
            if !deleted_here {
                assert forall|id: u64|
                    #[trigger] ecs.pending@.contains(id) <==> (pend0.contains(id) || exists|
                        kk: int,
                    |
                        0 <= kk < k as int + 1 && (#[trigger] origv[kk]).id == id
                            && carried_with_owner(origv[kk], player_entity)) by {
                    if exists|kk: int|
                        0 <= kk < k as int + 1 && (#[trigger] origv[kk]).id == id
                            && carried_with_owner(origv[kk], player_entity) {
                        let kk = choose|kk: int|
                            0 <= kk < k as int + 1 && (#[trigger] origv[kk]).id == id
                                && carried_with_owner(origv[kk], player_entity);
                        assert(kk != k as int);
                    }
                }
            }
        }
        k = k + 1;
    }
    let ghost prepend2 = ecs.pending@;
    ecs.delete_entity(player_entity);
    proof {
        assert forall|id: u64|
            #[trigger] ecs.pending@.contains(id) <==> cascade_queued(
                origv,
                pend0,
                player_entity,
                id,
            ) by {
            crate::weapons::lemma_push_contains(prepend2, player_entity, id);
        }
    }
}

/// What deleting by session id does: an unknown id is a recoverable
/// no-op; a live player is queued for deletion together with
/// everything it carries, and a mushroom cloud is left at its last
/// location.
pub open spec fn spec_delete_post(pre: World, post: World, pid: Seq<char>) -> bool {
    if forall|i: int|
        0 <= i < pre@.len() ==> (#[trigger] pre@[i]).player_info != Option::Some(pid) {
        post == pre
    } else {
        exists|i: int|
            {
                &&& 0 <= i < pre@.len()
                &&& (#[trigger] pre@[i]).player_info == Option::Some(pid)
                &&& (forall|id: u64|
                    #[trigger] post.pending@.contains(id) <==> cascade_queued(
                        pre@,
                        pre.pending@,
                        pre@[i].id,
                        id,
                    ))
                &&& (pre@[i].location matches Option::Some(l) ==> post@ == pre@.push(
                    mushroom_cloud_rec(l, pre.next_id, pre.next_marker),
                ))
                &&& (pre@[i].location is None ==> post@ == pre@)
            }
    }
}

/// Queue the cascade for the player with this session id, if one is
/// present, and leave a mushroom cloud at its last location.  An
/// unknown id is a recoverable no-op: the world is left untouched.
pub fn delete_player_with_id(ecs: &mut World, player_id: &String)
    requires
        old(ecs).wf(),
        has_room(*old(ecs), 1),
    ensures
        final(ecs).wf(),
        carries_ok(old(ecs)@) ==> carries_ok(final(ecs)@),
        (carries_ok(old(ecs)@) && crate::world::pending_ok(*old(ecs))) ==> crate::world::pending_ok(
            *final(ecs),
        ),
        spec_delete_post(*old(ecs), *final(ecs), player_id@),
{
    let maybe_entity = get_player_with_id(ecs, player_id);
    let player_entity = match maybe_entity {
        Option::Some(e) => e,
        Option::None => {
            return ;
        },
    };
    proof {
        lemma_idx_of(old(ecs)@, player_entity);
    }
    let drop_location = match ecs.index_of(player_entity) {
        Option::Some(i) => ecs.ents[i].location,
        Option::None => Option::None,
    };
    delete_player(ecs, player_entity);
    let ghost mid = *ecs;
    if let Option::Some(location) = drop_location {
        proof {
            assert(rec_wf(rec_of(old(ecs)@, player_entity)));
        }
        create_mushroom_cloud(ecs, location);
    }
    proof {
        let pre = old(ecs)@;
        let ix = idx_of(pre, player_entity);
        assert(pre[ix].player_info == Option::Some(player_id@));
        assert forall|id: u64|
            #[trigger] ecs.pending@.contains(id) <==> cascade_queued(
                pre,
                old(ecs).pending@,
                pre[ix].id,
                id,
            ) by {
            assert(ecs.pending@ == mid.pending@);
        }
        assert(spec_delete_post(*old(ecs), *ecs, player_id@));
        if carries_ok(pre) {
            lemma_append_ownerless_carries(pre, ecs@);
            if crate::world::pending_ok(*old(ecs)) {
                // the cascade keeps the queue closed: a victim's cargo
                // leaves with it, and cargo is never itself an owner
                assert forall|i: int|
                    0 <= i < ecs@.len() implies ((#[trigger] ecs@[i]).carried_by matches
                    Option::Some(c) && ecs.pending@.contains(c.owner) ==> ecs.pending@.contains(
                        ecs@[i].id,
                    )) by {
                    if ecs@[i].carried_by is Some {
                        let c = ecs@[i].carried_by->Some_0;
                        if ecs.pending@.contains(c.owner) {
                            assert(i < pre.len());
                            assert(ecs@[i] == pre[i]);
                            assert(cascade_queued(pre, old(ecs).pending@, player_entity, c.owner));
                            if old(ecs).pending@.contains(c.owner) {
                                assert(crate::world::pending_closed(pre, old(ecs).pending@));
                                assert(old(ecs).pending@.contains(pre[i].id));
                                assert(cascade_queued(
                                    pre,
                                    old(ecs).pending@,
                                    player_entity,
                                    pre[i].id,
                                ));
                            } else if c.owner == player_entity {
                                assert(cascade_queued(
                                    pre,
                                    old(ecs).pending@,
                                    player_entity,
                                    pre[i].id,
                                ));
                            } else {
                                // the owner would itself be cargo: but
                                // owners are players and players are
                                // never carried
                                let k = choose|k: int|
                                    0 <= k < pre.len() && (#[trigger] pre[k]).id == c.owner
                                        && carried_with_owner(pre[k], player_entity);
                                lemma_idx_of(pre, c.owner);
                                let ox = idx_of(pre, c.owner);
                                if ox != k {
                                    assert(pre[ox].id == pre[k].id);
                                }
                                assert(pre[k].player_info is Some);
                                assert(rec_wf(pre[k]));
                            }
                        }
                    }
                }
                assert forall|id: u64|
                    #[trigger] ecs.pending@.contains(id) implies id < ecs.next_id by {
                    if !old(ecs).pending@.contains(id) {
                        if id == player_entity {
                            assert(has_id(pre, id));
                            lemma_idx_of(pre, id);
                        } else {
                            let k = choose|k: int|
                                0 <= k < pre.len() && (#[trigger] pre[k]).id == id
                                    && carried_with_owner(pre[k], player_entity);
                        }
                    }
                }
            }
        }
    }
}

/// Appending ownerless, playerless records preserves the carry
/// invariant.
proof fn lemma_append_ownerless_carries(s1: Seq<RecV>, s2: Seq<RecV>)
    requires
        s2.len() >= s1.len(),
        forall|j: int| 0 <= j < s1.len() ==> s2[j] == #[trigger] s1[j],
        forall|k: int|
            s1.len() <= k < s2.len() ==> (#[trigger] s2[k]).carried_by is None && s2[k].player_info
                is None,
        carries_ok(s1),
    ensures
        carries_ok(s2),
{
    crate::weapons::lemma_stab_carries_ok(s1, s2);
}

/// Spawn a transient dropping at this location.
pub fn create_poop(ecs: &mut World, location: Location)
    requires
        old(ecs).wf(),
        has_room(*old(ecs), 1),
        crate::world::coords_bounded(location.x as int, location.y as int),
    ensures
        final(ecs).wf(),
        final(ecs).pending == old(ecs).pending,
        final(ecs).next_id == old(ecs).next_id + 1,
        final(ecs).next_marker == old(ecs).next_marker + 1,
        final(ecs)@ == old(ecs)@.push(
            poop_rec(location, old(ecs).next_id, old(ecs).next_marker),
        ),
        carries_ok(old(ecs)@) ==> carries_ok(final(ecs)@),
{
    let mut rec = EntityRecord::empty();
    rec.location = Option::Some(location);
    rec.renderable = Option::Some(Renderable { render_order: 3 });
    rec.text_renderable = Option::Some(
        TextRenderable {
            text: poop_glyph_exec(),
            font_size: 200,
            offset_x: 0,
            offset_y: 30,
        },
    );
    rec.disappearing = Option::Some(Disappearing { total_ticks: 100, ticks_left: 100 });
    let _ = ecs.create_from(rec);
    proof {
        if carries_ok(old(ecs)@) {
            lemma_append_ownerless_carries(old(ecs)@, ecs@);
        }
    }
}

/// The glyph drawn for a dropping.
pub open spec fn poop_glyph() -> Seq<char> {
    "\u{1F4A9}"@
}

fn poop_glyph_exec() -> (r: String)
    ensures
        r@ == poop_glyph(),
{
    String::from_str("\u{1F4A9}")
}

/// Spawn a transient mushroom cloud at this location.
pub fn create_mushroom_cloud(ecs: &mut World, location: Location)
    requires
        old(ecs).wf(),
        has_room(*old(ecs), 1),
        crate::world::coords_bounded(location.x as int, location.y as int),
    ensures
        final(ecs).wf(),
        final(ecs).pending == old(ecs).pending,
        final(ecs).next_id == old(ecs).next_id + 1,
        final(ecs).next_marker == old(ecs).next_marker + 1,
        final(ecs)@ == old(ecs)@.push(
            mushroom_cloud_rec(location, old(ecs).next_id, old(ecs).next_marker),
        ),
{
    let mut rec = EntityRecord::empty();
    rec.location = Option::Some(location);
    rec.renderable = Option::Some(Renderable { render_order: 0 });
    rec.graphic_renderable = Option::Some(
        GraphicRenderable {
            image_name: String::from_str("mushroom_cloud"),
            offset_x: 0,
            offset_y: 0,
        },
    );
    rec.disappearing = Option::Some(Disappearing { total_ticks: 20, ticks_left: 20 });
    let _ = ecs.create_from(rec);
    proof {
        assert(ecs@ =~= old(ecs)@.push(
            mushroom_cloud_rec(location, old(ecs).next_id, old(ecs).next_marker),
        ));
    }
}

/// Spawn a blood splatter at this location.
pub fn create_blood_splatter(ecs: &mut World, location: Location)
    requires
        old(ecs).wf(),
        has_room(*old(ecs), 1),
        crate::world::coords_bounded(location.x as int, location.y as int),
    ensures
        final(ecs).wf(),
        final(ecs).pending == old(ecs).pending,
        final(ecs).next_id == old(ecs).next_id + 1,
        final(ecs).next_marker == old(ecs).next_marker + 1,
        final(ecs)@.len() == old(ecs)@.len() + 1,
        forall|j: int| 0 <= j < old(ecs)@.len() ==> final(ecs)@[j] == #[trigger] old(ecs)@[j],
        crate::weapons::splatter_rec(final(ecs)@.last(), location),
        carries_ok(old(ecs)@) ==> carries_ok(final(ecs)@),
{
    let mut rec = EntityRecord::empty();
    rec.location = Option::Some(location);
    rec.renderable = Option::Some(Renderable { render_order: 5 });
    rec.graphic_renderable = Option::Some(
        GraphicRenderable {
            image_name: String::from_str("blood_splatter"),
            offset_x: 0,
            offset_y: 0,
        },
    );
    rec.disappearing = Option::Some(Disappearing { total_ticks: 100, ticks_left: 100 });
    let _ = ecs.create_from(rec);
    proof {
        if carries_ok(old(ecs)@) {
            lemma_append_ownerless_carries(old(ecs)@, ecs@);
        }
    }
}

/// Spawn a palm tree at this tile.
pub fn create_tree(ecs: &mut World, x: i32, y: i32)
    requires
        old(ecs).wf(),
        has_room(*old(ecs), 1),
        crate::world::coords_bounded(x as int, y as int),
    ensures
        final(ecs).wf(),
        final(ecs).pending == old(ecs).pending,
        final(ecs).next_id == old(ecs).next_id + 1,
        final(ecs).next_marker == old(ecs).next_marker + 1,
        final(ecs)@ == old(ecs)@.push(tree_rec(x, y, old(ecs).next_id, old(ecs).next_marker)),
        carries_ok(old(ecs)@) ==> carries_ok(final(ecs)@),
{
    let mut rec = EntityRecord::empty();
    rec.location = Option::Some(Location { x, y });
    rec.renderable = Option::Some(Renderable { render_order: 4 });
    rec.text_renderable = Option::Some(
        TextRenderable {
            text: String::from_str("\u{1F334}"),
            font_size: 400,
            offset_x: -5,
            offset_y: 0,
        },
    );
    let _ = ecs.create_from(rec);
    proof {
        assert(ecs@ =~= old(ecs)@.push(
            tree_rec(x, y, old(ecs).next_id, old(ecs).next_marker),
        ));
        if carries_ok(old(ecs)@) {
            lemma_append_ownerless_carries(old(ecs)@, ecs@);
        }
    }
}

/// Spawn a knife at this tile: it waits to be picked up and can stab.
pub fn create_knife(ecs: &mut World, x: i32, y: i32)
    requires
        old(ecs).wf(),
        has_room(*old(ecs), 1),
        crate::world::coords_bounded(x as int, y as int),
    ensures
        final(ecs).wf(),
        final(ecs).pending == old(ecs).pending,
        final(ecs).next_id == old(ecs).next_id + 1,
        final(ecs).next_marker == old(ecs).next_marker + 1,
        final(ecs)@ == old(ecs)@.push(knife_rec(x, y, old(ecs).next_id, old(ecs).next_marker)),
        carries_ok(old(ecs)@) ==> carries_ok(final(ecs)@),
{
    let mut rec = EntityRecord::empty();
    rec.location = Option::Some(Location { x, y });
    rec.renderable = Option::Some(Renderable { render_order: 3 });
    rec.text_renderable = Option::Some(
        TextRenderable {
            text: String::from_str("\u{1F52A}"),
            font_size: 400,
            offset_x: 25,
            offset_y: 20,
        },
    );
    rec.wants_to_be_picked_up = Option::Some(WantsToBePickedUp {  });
    rec.wants_to_stab = Option::Some(WantsToStab {  });
    let _ = ecs.create_from(rec);
    proof {
        assert(ecs@ =~= old(ecs)@.push(
            knife_rec(x, y, old(ecs).next_id, old(ecs).next_marker),
        ));
        if carries_ok(old(ecs)@) {
            lemma_append_ownerless_carries(old(ecs)@, ecs@);
        }
    }
}

/// The arena, generator state and allocators after `k` tree draws:
/// each draw samples a grass tile and, when one is found, plants a
/// tree there.
pub open spec fn spec_fill_trees(
    s: Seq<RecV>,
    nid: u64,
    nm: u64,
    rs: u64,
    inc: u64,
    g: Seq<Seq<TileType>>,
    w: int,
    h: int,
    k: nat,
) -> (Seq<RecV>, u64, u64, u64)
    decreases k,
{
    if k == 0 {
        (s, rs, nid, nm)
    } else {
        let prev = spec_fill_trees(s, nid, nm, rs, inc, g, w, h, (k - 1) as nat);
        let srch = crate::terrain::spec_random_location(
            g,
            w,
            h,
            Option::Some(TileType::Grass),
            prev.1,
            inc,
        );
        match srch.0 {
            Option::Some(l) => (
                prev.0.push(tree_rec(l.x, l.y, prev.2, prev.3)),
                srch.1,
                (prev.2 + 1) as u64,
                (prev.3 + 1) as u64,
            ),
            Option::None => (prev.0, srch.1, prev.2, prev.3),
        }
    }
}

/// The tree pass appends vegetation only: it never creates a player.
pub proof fn lemma_fill_trees_players(
    s: Seq<RecV>,
    nid: u64,
    nm: u64,
    rs: u64,
    inc: u64,
    g: Seq<Seq<TileType>>,
    w: int,
    h: int,
    k: nat,
)
    ensures
        ({
            let r = spec_fill_trees(s, nid, nm, rs, inc, g, w, h, k);
            &&& r.0.len() >= s.len()
            &&& (forall|j: int| 0 <= j < s.len() ==> r.0[j] == s[j])
            &&& (forall|j: int|
                s.len() <= j < r.0.len() ==> (#[trigger] r.0[j]).player_info is None)
        }),
    decreases k,
{
    if k > 0 {
        lemma_fill_trees_players(s, nid, nm, rs, inc, g, w, h, (k - 1) as nat);
    }
}

/// Scatter the initial vegetation and one knife over the island:
/// twenty tree draws, then one knife draw, each planting only when a
/// grass tile was found.
pub fn fill_map(ecs: &mut World, map: &TileMap, rng: &mut Pcg32)
    requires
        old(ecs).wf(),
        map.wf(),
        has_room(*old(ecs), 21),
    ensures
        final(ecs).wf(),
        final(ecs).pending == old(ecs).pending,
        final(ecs).next_id as int <= old(ecs).next_id + 21,
        final(ecs).next_marker as int <= old(ecs).next_marker + 21,
        forall|j: int| 0 <= j < old(ecs)@.len() ==> final(ecs)@[j] == #[trigger] old(ecs)@[j],
        carries_ok(old(ecs)@) ==> carries_ok(final(ecs)@),
        final(rng).inc == old(rng).inc,
        ({
            let g = crate::terrain::grid_of(map.tiles@);
            let w = map.width as int;
            let h = map.height as int;
            let trees = spec_fill_trees(
                old(ecs)@,
                old(ecs).next_id,
                old(ecs).next_marker,
                old(rng).state,
                old(rng).inc,
                g,
                w,
                h,
                20,
            );
            let srch = crate::terrain::spec_random_location(
                g,
                w,
                h,
                Option::Some(TileType::Grass),
                trees.1,
                old(rng).inc,
            );
            match srch.0 {
                Option::Some(l) => final(ecs)@ == trees.0.push(
                    knife_rec(l.x, l.y, trees.2, trees.3),
                ) && final(rng).state == srch.1,
                Option::None => final(ecs)@ == trees.0 && final(rng).state == srch.1,
            }
        }),
{
    let ghost origv = ecs@;
    let ghost g = crate::terrain::grid_of(map.tiles@);
    let ghost w = map.width as int;
    let ghost h = map.height as int;
    let ghost nid0 = ecs.next_id;
    let ghost nm0 = ecs.next_marker;
    let ghost rs0 = rng.state;
    let ghost inc0 = rng.inc;
    let mut t: usize = 0;
    while t < 20
        invariant
            map.wf(),
            ecs.wf(),
            t <= 20,
            g == crate::terrain::grid_of(map.tiles@),
            w == map.width as int,
            h == map.height as int,
            ecs.pending == old(ecs).pending,
            ecs.next_id as int <= old(ecs).next_id + t,
            ecs.next_marker as int <= old(ecs).next_marker + t,
            old(ecs).next_id + 21 <= u64::MAX,
            old(ecs).next_marker + 21 <= u64::MAX,
            nid0 == old(ecs).next_id,
            nm0 == old(ecs).next_marker,
            rs0 == old(rng).state,
            inc0 == old(rng).inc,
            rng.inc == inc0,
            ecs@.len() >= origv.len(),
            forall|j: int| 0 <= j < origv.len() ==> ecs@[j] == #[trigger] origv[j],
            origv == old(ecs)@,
            carries_ok(origv) ==> carries_ok(ecs@),
            (ecs@, rng.state, ecs.next_id, ecs.next_marker) == spec_fill_trees(
                origv,
                nid0,
                nm0,
                rs0,
                inc0,
                g,
                w,
                h,
                t as nat,
            ),
            forall|k: int|
                origv.len() <= k < ecs@.len() ==> (#[trigger] ecs@[k]).carried_by is None
                    && ecs@[k].player_info is None,
        decreases 20 - t,
    {
        let ghost prev = ecs@;
        if let Option::Some(location) = get_random_location_of_tile(
            map,
            rng,
            Option::Some(TileType::Grass),
        ) {
            create_tree(ecs, location.x, location.y);
        }
        proof {
            assert forall|k: int|
                origv.len() <= k < ecs@.len() implies (#[trigger] ecs@[k]).carried_by is None
                && ecs@[k].player_info is None by {
                if k < prev.len() {
                    assert(ecs@[k] == prev[k]);
                }
            }
            assert((ecs@, rng.state, ecs.next_id, ecs.next_marker) == spec_fill_trees(
                origv,
                nid0,
                nm0,
                rs0,
                inc0,
                g,
                w,
                h,
                (t + 1) as nat,
            ));
        }
        t = t + 1;
    }
    if let Option::Some(location) = get_random_location_of_tile(
        map,
        rng,
        Option::Some(TileType::Grass),
    ) {
        create_knife(ecs, location.x, location.y);
    }
}

/// Queue every chat bubble this player carries for deletion and
/// attach a fresh one with the given text.
pub fn create_chat_bubble(ecs: &mut World, text: String, for_entity: u64)
    requires
        old(ecs).wf(),
        has_room(*old(ecs), 1),
        has_id(old(ecs)@, for_entity),
        rec_of(old(ecs)@, for_entity).player_info is Some,
        !old(ecs).pending@.contains(for_entity),
    ensures
        final(ecs).wf(),
        carries_ok(old(ecs)@) ==> carries_ok(final(ecs)@),
        (carries_ok(old(ecs)@) && crate::world::pending_ok(*old(ecs))) ==> crate::world::pending_ok(
            *final(ecs),
        ),
        final(ecs).next_id == old(ecs).next_id + 1,
        final(ecs).next_marker == old(ecs).next_marker + 1,
        final(ecs)@.len() == old(ecs)@.len() + 1,
        forall|j: int| 0 <= j < old(ecs)@.len() ==> final(ecs)@[j] == #[trigger] old(ecs)@[j],
        final(ecs)@.last() == chat_bubble_rec(
            text@,
            for_entity,
            old(ecs).next_id,
            old(ecs).next_marker,
        ),
        forall|id: u64|
            #[trigger] final(ecs).pending@.contains(id) <==> (old(ecs).pending@.contains(id)
                || exists|k: int|
                0 <= k < old(ecs)@.len() && (#[trigger] old(ecs)@[k]).id == id
                    && old(ecs)@[k].chat_renderable is Some && carried_with_owner(
                    old(ecs)@[k],
                    for_entity,
                )),
{
    let ghost origv = ecs@;
    let ghost pend0 = ecs.pending@;
    let n = ecs.ents.len();
    let mut k: usize = 0;
    while k < n
        invariant
            origv == old(ecs)@,
            ecs.ents == old(ecs).ents,
            ecs.next_id == old(ecs).next_id,
            ecs.next_marker == old(ecs).next_marker,
            n == origv.len(),
            k <= n,
            forall|id: u64|
                #[trigger] ecs.pending@.contains(id) <==> (pend0.contains(id) || exists|kk: int|
                    0 <= kk < k && (#[trigger] origv[kk]).id == id && origv[kk].chat_renderable
                        is Some && carried_with_owner(origv[kk], for_entity)),
        decreases n - k,
    {
        let mut deleted_here = false;
        let ghost prepend = ecs.pending@;
        let is_bubble = ecs.ents[k].chat_renderable.is_some() && (match ecs.ents[k].carried_by {
            Option::Some(c) => c.owner == for_entity,
            Option::None => false,
        });
        if is_bubble {
            let kid = ecs.ents[k].id;
            ecs.delete_entity(kid);
            deleted_here = true;
            proof {
                assert(origv[k as int].id == kid);
                assert forall|id: u64|
                    #[trigger] ecs.pending@.contains(id) <==> (prepend.contains(id) || id
                        == kid) by {
                    crate::weapons::lemma_push_contains(prepend, kid, id);
                }
            }
        }
        proof {
            if !deleted_here {
                assert forall|id: u64|
                    #[trigger] ecs.pending@.contains(id) <==> (pend0.contains(id) || exists|
                        kk: int,
                    |
                        0 <= kk < k as int + 1 && (#[trigger] origv[kk]).id == id
                            && origv[kk].chat_renderable is Some && carried_with_owner(
                            origv[kk],
                            for_entity,
                        )) by {
                    if exists|kk: int|
                        0 <= kk < k as int + 1 && (#[trigger] origv[kk]).id == id
                            && origv[kk].chat_renderable is Some && carried_with_owner(
                            origv[kk],
                            for_entity,
                        ) {
                        let kk = choose|kk: int|
                            0 <= kk < k as int + 1 && (#[trigger] origv[kk]).id == id
                                && origv[kk].chat_renderable is Some && carried_with_owner(
                                origv[kk],
                                for_entity,
                            );
                        assert(kk != k as int);
                    }
                }
            }
        }
        k = k + 1;
    }
    let mut rec = EntityRecord::empty();
    rec.carried_by = Option::Some(CarriedBy { owner: for_entity });
    rec.renderable = Option::Some(Renderable { render_order: 0 });
    rec.chat_renderable = Option::Some(
        ChatRenderable { text, offset_x: -20, offset_y: -100 },
    );
    rec.disappearing = Option::Some(Disappearing { total_ticks: 100, ticks_left: 100 });
    let _ = ecs.create_from(rec);
    proof {
        if carries_ok(origv) && crate::world::pending_ok(*old(ecs)) {
            // the queue stays closed: the removed bubbles own nothing,
            // and the fresh bubble's owner is not queued
            assert forall|i: int|
                0 <= i < ecs@.len() implies ((#[trigger] ecs@[i]).carried_by matches
                Option::Some(c) && ecs.pending@.contains(c.owner) ==> ecs.pending@.contains(
                    ecs@[i].id,
                )) by {
                if ecs@[i].carried_by is Some {
                    let c = ecs@[i].carried_by->Some_0;
                    if ecs.pending@.contains(c.owner) {
                        if i < origv.len() {
                            assert(ecs@[i] == origv[i]);
                            if pend0.contains(c.owner) {
                                assert(crate::world::pending_closed(origv, pend0));
                                assert(pend0.contains(origv[i].id));
                            } else {
                                // the owner would be a removed bubble:
                                // but owners are players and bubbles
                                // are carried, never players
                                let k = choose|k: int|
                                    0 <= k < origv.len() && (#[trigger] origv[k]).id == c.owner
                                        && origv[k].chat_renderable is Some && carried_with_owner(
                                        origv[k],
                                        for_entity,
                                    );
                                lemma_idx_of(origv, c.owner);
                                let ox = idx_of(origv, c.owner);
                                if ox != k {
                                    assert(origv[ox].id == origv[k].id);
                                }
                                assert(origv[k].player_info is Some);
                                assert(rec_wf(origv[k]));
                            }
                        } else {
                            assert(c.owner == for_entity);
                            if pend0.contains(for_entity) {
                            } else {
                                let k = choose|k: int|
                                    0 <= k < origv.len() && (#[trigger] origv[k]).id
                                        == for_entity && origv[k].chat_renderable is Some
                                        && carried_with_owner(origv[k], for_entity);
                                lemma_idx_of(origv, for_entity);
                                let ox = idx_of(origv, for_entity);
                                if ox != k {
                                    assert(origv[ox].id == origv[k].id);
                                }
                                assert(origv[k].player_info is Some);
                                assert(rec_wf(origv[k]));
                            }
                        }
                    }
                }
            }
            assert forall|id: u64|
                #[trigger] ecs.pending@.contains(id) implies id < ecs.next_id by {
                if !pend0.contains(id) {
                    let k = choose|k: int|
                        0 <= k < origv.len() && (#[trigger] origv[k]).id == id
                            && origv[k].chat_renderable is Some && carried_with_owner(
                            origv[k],
                            for_entity,
                        );
                }
            }
        }
        if carries_ok(origv) {
            let s2 = ecs@;
            assert forall|i: int|
                0 <= i < s2.len() implies ((#[trigger] s2[i]).carried_by matches Option::Some(c)
                ==> has_id(s2, c.owner) && rec_of(s2, c.owner).player_info is Some) by {
                if s2[i].carried_by is Some {
                    let c = s2[i].carried_by->Some_0;
                    if i < origv.len() {
                        let w = choose|w: int|
                            0 <= w < origv.len() && (#[trigger] origv[w]).id == c.owner;
                        assert(s2[w] == origv[w]);
                        assert(has_id(s2, c.owner));
                        lemma_idx_of(origv, c.owner);
                        crate::weapons::lemma_idx_of_prefix(origv, s2, c.owner);
                        lemma_idx_of(s2, c.owner);
                    } else {
                        assert(c.owner == for_entity);
                        lemma_idx_of(origv, for_entity);
                        let w = idx_of(origv, for_entity);
                        assert(s2[w] == origv[w]);
                        assert(s2[w].id == for_entity);
                        assert(has_id(s2, c.owner));
                        crate::weapons::lemma_idx_of_prefix(origv, s2, c.owner);
                        lemma_idx_of(s2, c.owner);
                    }
                }
            }
        }
    }
}

} // verus!

verus! {

/// Attach a drop shadow to this entity.
pub fn create_drop_shadow(ecs: &mut World, for_entity: u64)
    requires
        old(ecs).wf(),
        has_room(*old(ecs), 1),
        has_id(old(ecs)@, for_entity),
        rec_of(old(ecs)@, for_entity).player_info is Some,
    ensures
        final(ecs).wf(),
        final(ecs).pending == old(ecs).pending,
        final(ecs).next_id == old(ecs).next_id + 1,
        final(ecs).next_marker == old(ecs).next_marker + 1,
        final(ecs)@ == old(ecs)@.push(
            drop_shadow_rec(for_entity, old(ecs).next_id, old(ecs).next_marker),
        ),
        carries_ok(old(ecs)@) ==> carries_ok(final(ecs)@),
{
    let mut rec = EntityRecord::empty();
    rec.carried_by = Option::Some(CarriedBy { owner: for_entity });
    rec.renderable = Option::Some(Renderable { render_order: 4 });
    rec.graphic_renderable = Option::Some(
        GraphicRenderable { image_name: String::from_str("drop_shadow"), offset_x: 0, offset_y: 0 },
    );
    let _ = ecs.create_from(rec);
    proof {
        assert(ecs@ =~= old(ecs)@.push(
            drop_shadow_rec(for_entity, old(ecs).next_id, old(ecs).next_marker),
        ));
        if carries_ok(old(ecs)@) {
            lemma_append_one_carried(old(ecs)@, ecs@, for_entity);
        }
    }
}

/// Attach a fading water trail to this entity.
pub fn create_wave_for_entity(ecs: &mut World, for_entity: u64)
    requires
        old(ecs).wf(),
        has_room(*old(ecs), 1),
        has_id(old(ecs)@, for_entity),
        rec_of(old(ecs)@, for_entity).player_info is Some,
    ensures
        final(ecs).wf(),
        final(ecs).pending == old(ecs).pending,
        final(ecs).next_id == old(ecs).next_id + 1,
        final(ecs).next_marker == old(ecs).next_marker + 1,
        final(ecs)@ == old(ecs)@.push(
            wave_rec(for_entity, old(ecs).next_id, old(ecs).next_marker),
        ),
        carries_ok(old(ecs)@) ==> carries_ok(final(ecs)@),
{
    let mut rec = EntityRecord::empty();
    rec.carried_by = Option::Some(CarriedBy { owner: for_entity });
    rec.renderable = Option::Some(Renderable { render_order: 0 });
    let mut names: Vec<String> = Vec::new();
    names.push(String::from_str("water_wave_0"));
    names.push(String::from_str("water_wave_1"));
    names.push(String::from_str("water_wave_2"));
    names.push(String::from_str("water_wave_2"));
    rec.graphic_renderable = Option::Some(
        GraphicRenderable { image_name: String::from_str("water_wave_0"), offset_x: 0, offset_y: 0 },
    );
    rec.graphic_animatable = Option::Some(
        GraphicAnimatable { image_names: names, tick_interval: 3, ticks: 0 },
    );
    rec.disappearing = Option::Some(Disappearing { total_ticks: 15, ticks_left: 15 });
    proof {
        let rv = rec@;
        assert(rv.graphic_animatable->Some_0.image_names[0] == "water_wave_0"@);
        assert(crate::world::names_contain(
            rv.graphic_animatable->Some_0.image_names,
            rv.graphic_renderable->Some_0.image_name,
        ));
        assert(rec_wf(rv));
    }
    let _ = ecs.create_from(rec);
    proof {
        assert(ecs@ =~~= old(ecs)@.push(
            wave_rec(for_entity, old(ecs).next_id, old(ecs).next_marker),
        ));
        if carries_ok(old(ecs)@) {
            lemma_append_one_carried(old(ecs)@, ecs@, for_entity);
        }
    }
}

/// Appending one carried, playerless record whose owner is a live
/// player preserves the carry invariant.
proof fn lemma_append_one_carried(s1: Seq<RecV>, s2: Seq<RecV>, owner: u64)
    requires
        s2.len() == s1.len() + 1,
        forall|j: int| 0 <= j < s1.len() ==> s2[j] == #[trigger] s1[j],
        s2.last().carried_by == Option::Some(CarriedBy { owner }),
        has_id(s1, owner),
        rec_of(s1, owner).player_info is Some,
        carries_ok(s1),
    ensures
        carries_ok(s2),
{
    assert forall|i: int|
        0 <= i < s2.len() implies ((#[trigger] s2[i]).carried_by matches Option::Some(c)
        ==> has_id(s2, c.owner) && rec_of(s2, c.owner).player_info is Some) by {
        if s2[i].carried_by is Some {
            let c = s2[i].carried_by->Some_0;
            if i < s1.len() {
                assert(s2[i] == s1[i]);
                assert(s1[i].carried_by == Option::Some(c));
                let w = choose|w: int| 0 <= w < s1.len() && (#[trigger] s1[w]).id == c.owner;
                assert(s2[w] == s1[w]);
                assert(has_id(s2, c.owner));
                lemma_idx_of(s1, c.owner);
                crate::weapons::lemma_idx_of_prefix(s1, s2, c.owner);
                lemma_idx_of(s2, c.owner);
            } else {
                assert(c.owner == owner);
                lemma_idx_of(s1, owner);
                let w = idx_of(s1, owner);
                assert(s2[w] == s1[w]);
                assert(s2[w].id == owner);
                assert(has_id(s2, c.owner));
                crate::weapons::lemma_idx_of_prefix(s1, s2, c.owner);
                lemma_idx_of(s2, c.owner);
            }
        }
    }
}

/// The tile kind an avatar spawns on: resident crabs wake on grass,
/// human players wade in on sand.
pub open spec fn spawn_want(ai: bool) -> Option<TileType> {
    if ai {
        Option::Some(TileType::Grass)
    } else {
        Option::Some(TileType::Sand)
    }
}

/// The crab behaviour drawn for a resident crab, and the generator
/// state after the three draws.
pub open spec fn spec_crab_draw(s: u64, inc: u64) -> (CrabAI, u64) {
    let c1 = crate::rng::pcg_next(s, inc);
    let i1 = crate::rng::pcg_in_range(c1.1, inc, 20, 30);
    let s1 = crate::rng::pcg_in_range(i1.1, inc, 15, 20);
    (
        CrabAI {
            crab_state: if c1.0 % 2 == 0 {
                CrabAIState::SleepingRight
            } else {
                CrabAIState::SleepingLeft
            },
            tick_interval: i1.0 as i16,
            ticks: 0,
            walk_speed: 1,
            sleep_duration: s1.0 as i16,
        },
        s1.1,
    )
}

/// What spawning creates when the id is free: on a successful tile
/// draw, the avatar, its drop shadow, and for a human player its
/// wave, with the generator advanced past every draw; nothing when
/// the draw fails.
pub open spec fn spec_spawn_created(
    pre: World,
    post: World,
    rs: u64,
    rs_post: u64,
    inc: u64,
    g: Seq<Seq<TileType>>,
    w: int,
    h: int,
    idt: Seq<char>,
    name: Seq<char>,
    ai: bool,
) -> bool {
    let srch = crate::terrain::spec_random_location(g, w, h, spawn_want(ai), rs, inc);
    let nid = pre.next_id;
    let nm = pre.next_marker;
    match srch.0 {
        Option::None => post == pre && rs_post == srch.1,
        Option::Some(loc) => {
            if ai {
                let draw = spec_crab_draw(srch.1, inc);
                &&& rs_post == draw.1
                &&& post@ == pre@.push(
                    crab_avatar_rec(idt, name, loc, Option::Some(draw.0), nid, nm),
                ).push(drop_shadow_rec(nid, (nid + 1) as u64, (nm + 1) as u64))
            } else {
                &&& rs_post == srch.1
                &&& post@ == pre@.push(crab_avatar_rec(idt, name, loc, Option::None, nid, nm)).push(
                    drop_shadow_rec(nid, (nid + 1) as u64, (nm + 1) as u64),
                ).push(wave_rec(nid, (nid + 2) as u64, (nm + 2) as u64))
            }
        },
    }
}

/// Spawn a crab avatar: a located, named, animated player entity
/// with its drop shadow, and for a human player a beach wave.  A
/// second crab with an id already in use is refused, and no crab
/// spawns when no free tile of the wanted kind was found.
pub fn spawn_crab(
    ecs: &mut World,
    map: &TileMap,
    rng: &mut Pcg32,
    id: &String,
    name: &String,
    ai: bool,
)
    requires
        old(ecs).wf(),
        map.wf(),
        has_room(*old(ecs), 3),
    ensures
        final(ecs).wf(),
        carries_ok(old(ecs)@) ==> carries_ok(final(ecs)@),
        (carries_ok(old(ecs)@) && crate::world::pending_ok(*old(ecs))) ==> crate::world::pending_ok(
            *final(ecs),
        ),
        final(ecs).pending == old(ecs).pending,
        final(ecs).next_id as int <= old(ecs).next_id + 3,
        final(ecs).next_marker as int <= old(ecs).next_marker + 3,
        forall|j: int| 0 <= j < old(ecs)@.len() ==> final(ecs)@[j] == #[trigger] old(ecs)@[j],
        final(rng).inc == old(rng).inc,
        (exists|i: int|
            0 <= i < old(ecs)@.len() && (#[trigger] old(ecs)@[i]).player_info == Option::Some(
                id@,
            )) ==> *final(ecs) == *old(ecs) && *final(rng) == *old(rng),
        (forall|i: int|
            0 <= i < old(ecs)@.len() ==> (#[trigger] old(ecs)@[i]).player_info != Option::Some(
                id@,
            )) ==> spec_spawn_created(
            *old(ecs),
            *final(ecs),
            old(rng).state,
            final(rng).state,
            old(rng).inc,
            crate::terrain::grid_of(map.tiles@),
            map.width as int,
            map.height as int,
            id@,
            name@,
            ai,
        ),
{
    let found = get_player_with_id(ecs, id);
    if found.is_some() {
        proof {
            let e = found->Some_0;
            lemma_idx_of(ecs@, e);
            assert(ecs@[idx_of(ecs@, e)].player_info == Option::Some(id@));
        }
        return ;
    }
    let want = if ai {
        Option::Some(TileType::Grass)
    } else {
        Option::Some(TileType::Sand)
    };
    let location = match get_random_location_of_tile(map, rng, want) {
        Option::Some(l) => l,
        Option::None => {
            return ;
        },
    };
    let crab_ai: Option<CrabAI> = if ai {
        let coin = rng.next_u32();
        let crab_state = if coin % 2 == 0 {
            CrabAIState::SleepingRight
        } else {
            CrabAIState::SleepingLeft
        };
        let interval = rng.next_in_range(20, 30);
        let sleep = rng.next_in_range(15, 20);
        Option::Some(
            CrabAI {
                crab_state,
                tick_interval: interval as i16,
                ticks: 0,
                walk_speed: 1,
                sleep_duration: sleep as i16,
            },
        )
    } else {
        Option::None
    };
    let mut rec = EntityRecord::empty();
    rec.location = Option::Some(location);
    rec.player_info = Option::Some(PlayerInfo { id: clone_string(id) });
    rec.renderable = Option::Some(Renderable { render_order: 2 });
    rec.text_renderable = Option::Some(
        TextRenderable {
            text: clone_string(name),
            font_size: 200,
            offset_x: 0,
            offset_y: 40,
        },
    );
    let mut names: Vec<String> = Vec::new();
    names.push(String::from_str("rustacean_right"));
    names.push(String::from_str("rustacean_left"));
    rec.graphic_renderable = Option::Some(
        GraphicRenderable {
            image_name: String::from_str("rustacean_right"),
            offset_x: 0,
            offset_y: 0,
        },
    );
    rec.graphic_animatable = Option::Some(
        GraphicAnimatable { image_names: names, tick_interval: 2, ticks: 0 },
    );
    rec.crab_ai = crab_ai;
    proof {
        let rv = rec@;
        assert(rv.graphic_animatable->Some_0.image_names[0] == "rustacean_right"@);
        assert(crate::world::names_contain(
            rv.graphic_animatable->Some_0.image_names,
            rv.graphic_renderable->Some_0.image_name,
        ));
        assert(rec_wf(rv));
    }
    let ghost pre = ecs@;
    let ghost nid0 = ecs.next_id;
    let ghost nm0 = ecs.next_marker;
    let entity = ecs.create_from(rec);
    proof {
        assert(ecs@ =~~= pre.push(
            crab_avatar_rec(
                id@,
                name@,
                location,
                match crab_ai {
                    Option::Some(c) => Option::Some(c),
                    Option::None => Option::None,
                },
                nid0,
                nm0,
            ),
        ));
    }
    proof {
        assert(ecs@.last().id == entity);
        assert(ecs@.last().player_info is Some);
        assert(has_id(ecs@, entity));
        lemma_idx_of(ecs@, entity);
        if idx_of(ecs@, entity) != ecs@.len() - 1 {
            assert(ecs@[idx_of(ecs@, entity)].id == entity);
            assert(ecs@[idx_of(ecs@, entity)] == pre[idx_of(ecs@, entity)]);
        }
        assert(rec_of(ecs@, entity).player_info is Some);
        if carries_ok(pre) {
            lemma_stab_like_append(pre, ecs@);
        }
    }
    let ghost c1 = ecs@;
    create_drop_shadow(ecs, entity);
    proof {
        assert forall|j: int| 0 <= j < pre.len() implies ecs@[j] == #[trigger] pre[j] by {
            assert(ecs@[j] == c1[j]);
        }
        assert(ecs@[pre.len() as int] == c1[pre.len() as int]);
        assert(ecs@[pre.len() as int].id == entity);
        assert(has_id(ecs@, entity));
        lemma_idx_of(ecs@, entity);
        if idx_of(ecs@, entity) != pre.len() as int {
            assert(ecs@[idx_of(ecs@, entity)].id == entity);
        }
        assert(rec_of(ecs@, entity).player_info is Some);
    }
    if !ai {
        let ghost c2 = ecs@;
        create_wave_for_entity(ecs, entity);
        proof {
            assert forall|j: int| 0 <= j < pre.len() implies ecs@[j] == #[trigger] pre[j] by {
                assert(ecs@[j] == c2[j]);
                assert(c2[j] == c1[j]);
            }
        }
    }
}

/// Appending one uncarried record preserves the carry invariant.
proof fn lemma_stab_like_append(s1: Seq<RecV>, s2: Seq<RecV>)
    requires
        s2.len() == s1.len() + 1,
        forall|j: int| 0 <= j < s1.len() ==> s2[j] == #[trigger] s1[j],
        s2.last().carried_by is None,
        carries_ok(s1),
    ensures
        carries_ok(s2),
{
    assert forall|i: int|
        0 <= i < s2.len() implies ((#[trigger] s2[i]).carried_by matches Option::Some(c)
        ==> has_id(s2, c.owner) && rec_of(s2, c.owner).player_info is Some) by {
        if s2[i].carried_by is Some {
            let c = s2[i].carried_by->Some_0;
            assert(i < s1.len());
            assert(s2[i] == s1[i]);
            assert(s1[i].carried_by == Option::Some(c));
            let w = choose|w: int| 0 <= w < s1.len() && (#[trigger] s1[w]).id == c.owner;
            assert(s2[w] == s1[w]);
            assert(has_id(s2, c.owner));
            lemma_idx_of(s1, c.owner);
            crate::weapons::lemma_idx_of_prefix(s1, s2, c.owner);
            lemma_idx_of(s2, c.owner);
        }
    }
}

/// Index of the first record showing frame-rate numbers, or the
/// length when none does.
pub open spec fn first_fps_index(s: Seq<RecV>) -> int
    decreases s.len(),
{
    if s.len() == 0 {
        0
    } else if s[0].fps_tracker is Some {
        0
    } else {
        1 + first_fps_index(s.drop_first())
    }
}

proof fn lemma_first_fps_index(s: Seq<RecV>)
    ensures
        0 <= first_fps_index(s) <= s.len(),
        first_fps_index(s) < s.len() ==> s[first_fps_index(s)].fps_tracker is Some,
        forall|j: int| 0 <= j < first_fps_index(s) ==> !((#[trigger] s[j]).fps_tracker is Some),
    decreases s.len(),
{
    if s.len() > 0 && !(s[0].fps_tracker is Some) {
        lemma_first_fps_index(s.drop_first());
        assert forall|j: int|
            0 <= j < first_fps_index(s) implies !((#[trigger] s[j]).fps_tracker is Some) by {
            if j > 0 {
                assert(s.drop_first()[j - 1] == s[j]);
            }
        }
    }
}

/// Show the newest frame-rate numbers: the first previous tracker
/// entity, if any, is queued for deletion and a fresh one is
/// created, so trackers replace each other instead of stacking.
pub fn add_fps_tracker(ecs: &mut World, tracker: &FPSTracker)
    requires
        old(ecs).wf(),
        has_room(*old(ecs), 1),
    ensures
        final(ecs).wf(),
        carries_ok(old(ecs)@) ==> carries_ok(final(ecs)@),
        final(ecs)@ == old(ecs)@.push(
            fps_rec(*tracker, old(ecs).next_id, old(ecs).next_marker),
        ),
        ({
            let fx = first_fps_index(old(ecs)@);
            if fx < old(ecs)@.len() {
                final(ecs).pending@ == old(ecs).pending@.push(old(ecs)@[fx].id)
            } else {
                final(ecs).pending@ == old(ecs).pending@
            }
        }),
{
    proof {
        lemma_first_fps_index(ecs@);
    }
    let n = ecs.ents.len();
    let mut existing: Option<u64> = Option::None;
    let mut i: usize = 0;
    while i < n
        invariant
            n == ecs@.len(),
            i <= n,
            *ecs == *old(ecs),
            match existing {
                Option::Some(e) => first_fps_index(ecs@) < i as int && e == ecs@[first_fps_index(
                    ecs@,
                )].id,
                Option::None => i as int <= first_fps_index(ecs@),
            },
        decreases n - i,
    {
        if existing.is_none() && ecs.ents[i].fps_tracker.is_some() {
            existing = Option::Some(ecs.ents[i].id);
            proof {
                lemma_first_fps_index(ecs@);
                if first_fps_index(ecs@) > i as int {
                    assert(!(ecs@[i as int].fps_tracker is Some));
                }
                assert(first_fps_index(ecs@) == i as int);
            }
        } else {
            proof {
                lemma_first_fps_index(ecs@);
                if existing.is_none() {
                    assert(!(ecs@[i as int].fps_tracker is Some));
                    if first_fps_index(ecs@) == i as int {
                        assert(first_fps_index(ecs@) < ecs@.len());
                    }
                }
            }
        }
        i = i + 1;
    }
    if let Option::Some(e) = existing {
        ecs.delete_entity(e);
    }
    let mut rec = EntityRecord::empty();
    rec.fps_tracker = Option::Some(*tracker);
    rec.location = Option::Some(Location { x: 0, y: 5 });
    rec.renderable = Option::Some(Renderable { render_order: 0 });
    let mut label = String::from_str("FPS: ");
    let digits = crate::codec::u64_to_string(tracker.prev_fps as u64);
    label.append(digits.as_str());
    rec.text_renderable = Option::Some(
        TextRenderable { text: label, font_size: 200, offset_x: 0, offset_y: 0 },
    );
    let ghost pre = ecs@;
    let _ = ecs.create_from(rec);
    proof {
        assert(ecs@ =~~= pre.push(fps_rec(*tracker, old(ecs).next_id, old(ecs).next_marker)));
        if carries_ok(pre) {
            lemma_stab_like_append(pre, ecs@);
        }
    }
}

} // verus!

verus! {

/// Law: applying the queued deletions after a player cascade removes
/// the player and everything it carried, removes nothing else, and
/// leaves no carry relation pointing at the removed player.
pub proof fn lemma_cascade_deletion(s: Seq<RecV>, victim: u64)
    requires
        crate::world::ids_unique(s),
        crate::world::markers_unique(s),
    ensures
        ({
            let pend = Seq::<u64>::empty();
            let f = s.filter(
                |r: RecV|
                    !(r.id == victim || exists|k: int|
                        0 <= k < s.len() && (#[trigger] s[k]).id == r.id && carried_with_owner(
                            s[k],
                            victim,
                        )),
            );
            &&& !has_id(f, victim)
            &&& forall|k: int|
                0 <= k < f.len() ==> !carried_with_owner(#[trigger] f[k], victim)
            &&& forall|i: int|
                0 <= i < s.len() && (#[trigger] s[i]).id != victim && !carried_with_owner(
                    s[i],
                    victim,
                ) ==> has_id(f, s[i].id)
        }),
{
    let keep = |r: RecV|
        !(r.id == victim || exists|k: int|
            0 <= k < s.len() && (#[trigger] s[k]).id == r.id && carried_with_owner(
                s[k],
                victim,
            ));
    let f = s.filter(keep);
    crate::world::lemma_filter_elements(s, keep);
    assert forall|k: int|
        0 <= k < f.len() implies !carried_with_owner(#[trigger] f[k], victim) && f[k].id
        != victim by {
        s.lemma_filter_pred(keep, k);
        assert(keep(f[k]));
        let w = choose|w: int| 0 <= w < s.len() && s[w] == f[k];
        if carried_with_owner(f[k], victim) {
            assert(s[w].id == f[k].id && carried_with_owner(s[w], victim));
        }
    }
    if has_id(f, victim) {
        let k = choose|k: int| 0 <= k < f.len() && (#[trigger] f[k]).id == victim;
        assert(f[k].id != victim);
    }
    assert forall|i: int|
        0 <= i < s.len() && (#[trigger] s[i]).id != victim && !carried_with_owner(s[i], victim)
        implies has_id(f, s[i].id) by {
        assert forall|k: int|
            0 <= k < s.len() && (#[trigger] s[k]).id == s[i].id implies !carried_with_owner(
            s[k],
            victim,
        ) by {
            if k != i {
                assert(s[k].id != s[i].id);
            }
        }
        assert(keep(s[i]));
        crate::world::lemma_filter_contains_at(s, keep, i);
        let k = choose|k: int|
            0 <= k < f.len() && #[trigger] f[k] == s[i];
        assert(f[k].id == s[i].id);
        assert(has_id(f, s[i].id));
    }
}

} // verus!
