//! The authoritative game state: the world, the terrain and the
//! generator, the command handlers that feed client input into the
//! simulation, and the tick that runs the system pipeline.
use vstd::prelude::*;

use crate::animation::{AnimationSystem, DisappearingSystem};
use crate::carry::{CarrySystem, PickUpSystem};
use crate::codec::{serialize_ecs, serialize_map, PlayerInput};
use crate::components::{WantsToMoveTo};
use crate::crab_ai::CrabAISystem;
use crate::entities::{
    create_poop, delete_player_with_id, get_player_with_id, fill_map, has_room, spawn_crab,
};
use crate::animation::{lemma_decay_deaths_contains, spec_anim_rec, spec_decay_deaths, spec_decay_rec};
use crate::carry::{spec_carry_rec, spec_pickup_rec};
use crate::crab_ai::spec_crab_rec;
use crate::movement::{spec_move_rec, MovementSystem};
use crate::rng::Pcg32;
use crate::terrain::{grid_of, spec_walkable, valid_walking_location, TileMap, TileType};
use crate::weapons::{
    carried_by_victim_id, splatter_from, victim_id, StabSystem,
};
use crate::world::{
    carries_ok, idx_of, ids_unique, lemma_closed_append_nonowners, lemma_closed_same_relations,
    lemma_idx_of, lemma_maintain_carries_ok, pending_closed, pending_ok, rec_of, rec_wf, RecV,
    World,
};

verus! {

/// What the profanity filter, extended with the game's own banned
/// word, returns for a given text.
pub uninterp spec fn censored(s: Seq<char>) -> Seq<char>;

/// Censor any profanity before the text is rendered to other
/// players.
///
/// Relies on censor::Censor::censor of the standard list extended by
/// one custom word: the replacement depends on the text alone.
#[verifier::external_body]
pub fn censor_chat_input(chat_input: &str) -> (r: String)
    ensures
        r@ == censored(chat_input@),
{
    let filter = censor::Censor::Standard + "cunk";
    filter.censor(chat_input)
}

/// The one action a special input triggers: a single character that
/// drops something at the player's feet.
pub open spec fn is_drop_input(s: Seq<char>) -> bool {
    s.len() == 1 && s[0] == 'p'
}

/// What handling a special input does: an unknown player id or an
/// unrecognized action leaves the world untouched; the drop action
/// leaves one dropping at the player's feet.
pub open spec fn spec_input_post(pre: World, post: World, input: Seq<char>, pid: Seq<char>) -> bool {
    if !is_drop_input(input) || (forall|i: int|
        0 <= i < pre@.len() ==> (#[trigger] pre@[i]).player_info != Option::Some(pid)) {
        post == pre
    } else {
        exists|i: int|
            {
                &&& 0 <= i < pre@.len()
                &&& (#[trigger] pre@[i]).player_info == Option::Some(pid)
                &&& (pre@[i].location matches Option::Some(l) ==> post@ == pre@.push(
                    crate::entities::poop_rec(l, pre.next_id, pre.next_marker),
                ) && post.pending == pre.pending)
                &&& (pre@[i].location is None ==> post == pre)
            }
    }
}

/// Handle a one-shot special action: dropping something at the
/// player's feet.  An unknown player id or an unknown action is a
/// no-op.
pub fn handle_input(ecs: &mut World, input: &str, player_id: &String)
    requires
        old(ecs).wf(),
        has_room(*old(ecs), 1),
    ensures
        final(ecs).wf(),
        carries_ok(old(ecs)@) ==> carries_ok(final(ecs)@),
        (carries_ok(old(ecs)@) && crate::world::pending_ok(*old(ecs))) ==> crate::world::pending_ok(
            *final(ecs),
        ),
        spec_input_post(*old(ecs), *final(ecs), input@, player_id@),
{
    let is_poop = input.unicode_len() == 1 && input.get_char(0) == 'p';
    if !is_poop {
        return ;
    }
    let maybe_entity = get_player_with_id(ecs, player_id);
    let for_entity = match maybe_entity {
        Option::Some(e) => e,
        Option::None => {
            return ;
        },
    };
    proof {
        lemma_idx_of(ecs@, for_entity);
    }
    let loc = match ecs.index_of(for_entity) {
        Option::Some(i) => ecs.ents[i].location,
        Option::None => Option::None,
    };
    let ghost ix = idx_of(ecs@, for_entity);
    if let Option::Some(location) = loc {
        proof {
            assert(crate::world::rec_wf(ecs@[ix]));
        }
        create_poop(ecs, location);
        proof {
            assert(old(ecs)@[ix].player_info == Option::Some(player_id@));
            assert(spec_input_post(*old(ecs), *ecs, input@, player_id@));
            if carries_ok(old(ecs)@) && crate::world::pending_ok(*old(ecs)) {
                assert forall|k: int|
                    0 <= k < ecs@.len() implies ((#[trigger] ecs@[k]).carried_by matches
                    Option::Some(c) && ecs.pending@.contains(c.owner) ==> ecs.pending@.contains(
                        ecs@[k].id,
                    )) by {
                    if k < old(ecs)@.len() {
                        assert(ecs@[k] == old(ecs)@[k]);
                        assert(crate::world::pending_closed(old(ecs)@, old(ecs).pending@));
                    }
                }
                assert(crate::world::pending_closed(ecs@, ecs.pending@));
                assert forall|id: u64|
                    #[trigger] ecs.pending@.contains(id) implies id < ecs.next_id by {
                    assert(old(ecs).pending@.contains(id));
                }
                assert(crate::world::pending_ok(*ecs));
            }
        }
    } else {
        proof {
            assert(old(ecs)@[ix].player_info == Option::Some(player_id@));
            assert(spec_input_post(*old(ecs), *ecs, input@, player_id@));
        }
    }
}

/// What handling a movement request does: the intent is attached
/// exactly when the player exists and the requested tile is
/// walkable, and it carries the requested coordinates.
pub open spec fn spec_click_post(
    pre: World,
    post: World,
    g: Seq<Seq<TileType>>,
    w: int,
    h: int,
    x: i32,
    y: i32,
    pid: Seq<char>,
) -> bool {
    let target_ok = spec_walkable(g, w, h, x as int, y as int);
    if target_ok && (exists|i: int|
        0 <= i < pre@.len() && (#[trigger] pre@[i]).player_info == Option::Some(pid)) {
        exists|i: int|
            0 <= i < pre@.len() && (#[trigger] pre@[i]).player_info == Option::Some(pid)
                && post@ == pre@.update(
                i,
                RecV {
                    wants_to_move_to: Option::Some(WantsToMoveTo { x, y, speed: 2 }),
                    ..pre@[i]
                },
            )
    } else {
        post@ == pre@
    }
}

/// Handle a movement request: the intent is attached exactly when
/// the player exists and the requested tile is walkable, and it
/// carries the requested coordinates.
pub fn handle_click(ecs: &mut World, map: &TileMap, x: i32, y: i32, player_id: &String)
    requires
        old(ecs).wf(),
        map.wf(),
    ensures
        final(ecs).wf(),
        carries_ok(old(ecs)@) ==> carries_ok(final(ecs)@),
        crate::world::pending_ok(*old(ecs)) ==> crate::world::pending_ok(*final(ecs)),
        final(ecs).pending == old(ecs).pending,
        final(ecs).next_id == old(ecs).next_id,
        final(ecs).next_marker == old(ecs).next_marker,
        final(ecs)@.len() == old(ecs)@.len(),
        spec_click_post(
            *old(ecs),
            *final(ecs),
            crate::terrain::grid_of(map.tiles@),
            map.width as int,
            map.height as int,
            x,
            y,
            player_id@,
        ),
{
    let maybe_entity = get_player_with_id(ecs, player_id);
    let for_entity = match maybe_entity {
        Option::Some(e) => e,
        Option::None => {
            return ;
        },
    };
    let desired_location = WantsToMoveTo { x, y, speed: 2 };
    if valid_walking_location(map, &desired_location) {
        let i = match ecs.index_of(for_entity) {
            Option::Some(i) => i,
            Option::None => {
                return ;
            },
        };
        let r = &mut ecs.ents[i];
        r.wants_to_move_to = Option::Some(desired_location);
        proof {
            assert(ecs@ =~= old(ecs)@.update(
                i as int,
                RecV {
                    wants_to_move_to: Option::Some(WantsToMoveTo { x, y, speed: 2 }),
                    ..old(ecs)@[i as int]
                },
            ));
            assert(old(ecs)@[i as int].player_info == Option::Some(player_id@));
            if carries_ok(old(ecs)@) {
                crate::world::lemma_carries_ok_transfer(old(ecs)@, ecs@);
            }
            if crate::world::pending_ok(*old(ecs)) {
                crate::world::lemma_closed_same_relations(old(ecs)@, ecs@, ecs.pending@);
            }
        }
    }
}

/// What handling a chat line does: an unknown id, or a player
/// already queued for deletion, leaves the world untouched;
/// otherwise every bubble the player carried is queued for deletion
/// and one fresh bubble with the censored text is attached.
pub open spec fn spec_chat_post(pre: World, post: World, chat: Seq<char>, pid: Seq<char>) -> bool {
    if forall|i: int|
        0 <= i < pre@.len() ==> (#[trigger] pre@[i]).player_info != Option::Some(pid) {
        post == pre
    } else {
        exists|i: int|
            {
                &&& 0 <= i < pre@.len()
                &&& (#[trigger] pre@[i]).player_info == Option::Some(pid)
                &&& (pre.pending@.contains(pre@[i].id) ==> post == pre)
                &&& (!pre.pending@.contains(pre@[i].id) ==> post@ == pre@.push(
                    crate::entities::chat_bubble_rec(
                        censored(chat),
                        pre@[i].id,
                        pre.next_id,
                        pre.next_marker,
                    ),
                ) && (forall|id: u64|
                    #[trigger] post.pending@.contains(id) <==> (pre.pending@.contains(id)
                        || exists|k: int|
                        0 <= k < pre@.len() && (#[trigger] pre@[k]).id == id
                            && pre@[k].chat_renderable is Some && crate::weapons::carried_with_owner(
                            pre@[k],
                            pre@[i].id,
                        ))))
            }
    }
}

/// Handle a chat line: the text is censored and becomes the player's
/// one chat bubble, replacing any bubble the player still carried.
pub fn handle_chat_input(ecs: &mut World, chat_input: &str, player_id: &String)
    requires
        old(ecs).wf(),
        has_room(*old(ecs), 1),
    ensures
        final(ecs).wf(),
        carries_ok(old(ecs)@) ==> carries_ok(final(ecs)@),
        (carries_ok(old(ecs)@) && crate::world::pending_ok(*old(ecs))) ==> crate::world::pending_ok(
            *final(ecs),
        ),
        spec_chat_post(*old(ecs), *final(ecs), chat_input@, player_id@),
{
    let maybe_entity = get_player_with_id(ecs, player_id);
    let for_entity = match maybe_entity {
        Option::Some(e) => e,
        Option::None => {
            return ;
        },
    };
    proof {
        lemma_idx_of(ecs@, for_entity);
    }
    let ghost ix = idx_of(ecs@, for_entity);
    // a player already queued for deletion gets no new bubble: it
    // would be orphaned the moment the deletions are applied
    if pending_contains(ecs, for_entity) {
        proof {
            assert(old(ecs)@[ix].player_info == Option::Some(player_id@));
            assert(spec_chat_post(*old(ecs), *ecs, chat_input@, player_id@));
        }
        return ;
    }
    let text = censor_chat_input(chat_input);
    crate::entities::create_chat_bubble(ecs, text, for_entity);
    proof {
        assert(old(ecs)@[ix].player_info == Option::Some(player_id@));
        assert(ecs@ =~~= old(ecs)@.push(
            crate::entities::chat_bubble_rec(
                censored(chat_input@),
                for_entity,
                old(ecs).next_id,
                old(ecs).next_marker,
            ),
        ));
        assert(spec_chat_post(*old(ecs), *ecs, chat_input@, player_id@));
    }
}

/// Whether this id is already queued for deletion.
fn pending_contains(ecs: &World, id: u64) -> (r: bool)
    ensures
        r == ecs.pending@.contains(id),
{
    let mut q: usize = 0;
    while q < ecs.pending.len()
        invariant
            q <= ecs.pending@.len(),
            forall|w: int| 0 <= w < q ==> ecs.pending@[w] != id,
        decreases ecs.pending@.len() - q,
    {
        if ecs.pending[q] == id {
            proof {
                assert(ecs.pending@[q as int] == id);
            }
            return true;
        }
        q = q + 1;
    }
    false
}

/// The authoritative game state.
pub struct State {
    pub ecs: World,
    pub map: TileMap,
    pub rng: Pcg32,
}

/// How one tick transforms the world: the six mutating systems in
/// their load-bearing order (movement, decay, pick-up, carry, crab,
/// stab), then animation, then the queued deletions applied.  The
/// stab step is pinned up to its effect entities: the arena after it
/// extends the pipeline state with blood splatters only, and its
/// queue holds exactly the prior queue, the decay deaths, the stab
/// victims and their cargo.
pub open spec fn spec_tick_rel(
    pre: Seq<RecV>,
    p0: Seq<u64>,
    g: Seq<Seq<TileType>>,
    w: int,
    h: int,
    post: Seq<RecV>,
) -> bool {
    let s1 = pre.map_values(|r: RecV| spec_move_rec(r));
    let s2 = s1.map_values(|r: RecV| spec_decay_rec(r));
    let p2 = p0 + spec_decay_deaths(s1);
    let s3 = Seq::new(s2.len(), |i: int| spec_pickup_rec(s2[i], s2, p2));
    let s4 = Seq::new(s3.len(), |i: int| spec_carry_rec(s3[i], s3));
    let s5 = Seq::new(s4.len(), |i: int| spec_crab_rec(s4[i], g, w, h));
    exists|mid: Seq<RecV>, pend: Seq<u64>|
        {
            &&& #[trigger] mid.len() >= s5.len()
            &&& #[trigger] pend.len() >= 0
            &&& (forall|j: int| 0 <= j < s5.len() ==> mid[j] == s5[j])
            &&& (forall|k: int| s5.len() <= k < mid.len() ==> splatter_from(s5, #[trigger] mid[k]))
            &&& (forall|id: u64|
                #[trigger] pend.contains(id) <==> (p2.contains(id) || victim_id(s5, id)
                    || carried_by_victim_id(s5, id)))
            &&& post == mid.map_values(|r: RecV| spec_anim_rec(r)).filter(
                |r: RecV| !pend.contains(r.id),
            )
        }
}

impl State {
    /// Run the system pipeline once, in its load-bearing order, and
    /// apply the queued deletions.
    fn run_systems(&mut self)
        requires
            old(self).ecs.wf(),
            carries_ok(old(self).ecs@),
            pending_ok(old(self).ecs),
            old(self).map.wf(),
        ensures
            final(self).ecs.wf(),
            carries_ok(final(self).ecs@),
            pending_ok(final(self).ecs),
            final(self).ecs.pending@.len() == 0,
            final(self).map == old(self).map,
            final(self).rng == old(self).rng,
            spec_tick_rel(
                old(self).ecs@,
                old(self).ecs.pending@,
                grid_of(old(self).map.tiles@),
                old(self).map.width as int,
                old(self).map.height as int,
                final(self).ecs@,
            ),
    {
        let ghost pre = self.ecs@;
        let ghost p0 = self.ecs.pending@;
        let ghost g = grid_of(self.map.tiles@);
        let ghost w = self.map.width as int;
        let ghost h = self.map.height as int;

        MovementSystem::run(&mut self.ecs);
        let ghost s1 = self.ecs@;
        proof {
            crate::world::lemma_carries_ok_transfer(pre, s1);
            lemma_closed_same_relations(pre, s1, p0);
        }
        DisappearingSystem::run(&mut self.ecs);
        let ghost s2 = self.ecs@;
        let ghost p2 = self.ecs.pending@;
        proof {
            crate::world::lemma_carries_ok_transfer(s1, s2);
            lemma_closed_same_relations(s1, s2, p0);
            // the expiring ids own nothing: an owner is a player, and
            // players never decay
            assert forall|i: int|
                0 <= i < s2.len() implies ((#[trigger] s2[i]).carried_by matches Option::Some(c)
                ==> !spec_decay_deaths(s1).contains(c.owner)) by {
                if s2[i].carried_by is Some {
                    let c = s2[i].carried_by->Some_0;
                    lemma_decay_deaths_contains(s1, c.owner);
                    if spec_decay_deaths(s1).contains(c.owner) {
                        let d = choose|d: int|
                            0 <= d < s1.len() && (#[trigger] s1[d]).id == c.owner
                                && crate::animation::spec_decay_dies(s1[d]);
                        assert(s2[i].carried_by == s1[i].carried_by);
                        lemma_idx_of(s1, c.owner);
                        let ox = idx_of(s1, c.owner);
                        if ox != d {
                            assert(s1[ox].id == s1[d].id);
                        }
                        assert(s1[d].player_info is Some);
                        assert(rec_wf(s1[d]));
                    }
                }
            }
            lemma_closed_append_nonowners(s2, p0, spec_decay_deaths(s1));
            assert(p2 == p0 + spec_decay_deaths(s1));
        }
        PickUpSystem::run(&mut self.ecs);
        let ghost s3 = self.ecs@;
        proof {
            // newly attached items went to players not in the queue;
            // every older relation was already covered
            assert forall|i: int|
                0 <= i < s3.len() implies ((#[trigger] s3[i]).carried_by matches Option::Some(c)
                && p2.contains(c.owner) ==> p2.contains(s3[i].id)) by {
                if s3[i].carried_by is Some {
                    let c = s3[i].carried_by->Some_0;
                    if p2.contains(c.owner) {
                        assert(s3[i] == spec_pickup_rec(s2[i], s2, p2));
                        if s2[i].carried_by == s3[i].carried_by {
                            assert(pending_closed(s2, p2));
                            assert(p2.contains(s2[i].id));
                        } else {
                            let loc = s2[i].location->Some_0;
                            crate::carry::lemma_last_player_in_range(s2, loc, p2);
                            let k = crate::carry::last_player_in_range(s2, loc, p2);
                            assert(c.owner == s2[k].id);
                            assert(!p2.contains(s2[k].id));
                        }
                    }
                }
            }
            assert(pending_closed(s3, p2));
        }
        CarrySystem::run(&mut self.ecs);
        let ghost s4 = self.ecs@;
        proof {
            lemma_closed_same_relations(s3, s4, p2);
        }
        CrabAISystem::run(&mut self.ecs, &self.map);
        let ghost s5 = self.ecs@;
        proof {
            crate::world::lemma_carries_ok_transfer(s4, s5);
            lemma_closed_same_relations(s4, s5, p2);
        }
        StabSystem::run_now_manually(&mut self.ecs);
        let ghost mid = self.ecs@;
        let ghost pend = self.ecs.pending@;
        proof {
            // the queue after combat stays closed: victims take their
            // cargo with them, and nothing carried is itself an owner
            assert forall|i: int|
                0 <= i < mid.len() implies ((#[trigger] mid[i]).carried_by matches Option::Some(
                c,
            ) && pend.contains(c.owner) ==> pend.contains(mid[i].id)) by {
                if mid[i].carried_by is Some {
                    let c = mid[i].carried_by->Some_0;
                    if pend.contains(c.owner) {
                        assert(i < s5.len());
                        assert(mid[i] == s5[i]);
                        if p2.contains(c.owner) {
                            assert(pending_closed(s5, p2));
                            assert(p2.contains(s5[i].id));
                        } else if victim_id(s5, c.owner) {
                            assert(carried_by_victim_id(s5, s5[i].id));
                        } else {
                            assert(carried_by_victim_id(s5, c.owner));
                            let k = choose|k: int|
                                0 <= k < s5.len() && (#[trigger] s5[k]).id == c.owner && (
                                s5[k].carried_by matches Option::Some(c2) && victim_id(
                                    s5,
                                    c2.owner,
                                ));
                            lemma_idx_of(s5, c.owner);
                            let ox = idx_of(s5, c.owner);
                            if ox != k {
                                assert(s5[ox].id == s5[k].id);
                            }
                            assert(s5[k].player_info is Some);
                            assert(rec_wf(s5[k]));
                        }
                    }
                }
            }
            assert(pending_closed(mid, pend));
        }
        AnimationSystem::run(&mut self.ecs);
        let ghost s6 = self.ecs@;
        proof {
            crate::world::lemma_carries_ok_transfer(mid, s6);
            lemma_closed_same_relations(mid, s6, pend);
            assert(s6 == mid.map_values(|r: RecV| spec_anim_rec(r)));
        }
        self.ecs.maintain();
        proof {
            lemma_maintain_carries_ok(s6, pend);
            let s1c = pre.map_values(|r: RecV| spec_move_rec(r));
            assert(s1 == s1c);
            let s2c = s1c.map_values(|r: RecV| spec_decay_rec(r));
            assert(s2 == s2c);
            let p2c = p0 + spec_decay_deaths(s1c);
            assert(p2 == p2c);
            let s3c = Seq::new(s2c.len(), |i: int| spec_pickup_rec(s2c[i], s2c, p2c));
            assert(s3 =~= s3c);
            let s4c = Seq::new(s3c.len(), |i: int| spec_carry_rec(s3c[i], s3c));
            assert(s4 =~= s4c);
            let s5c = Seq::new(s4c.len(), |i: int| spec_crab_rec(s4c[i], g, w, h));
            assert(s5 =~= s5c);
            assert({
                &&& mid.len() >= s5c.len()
                &&& pend.len() >= 0
                &&& (forall|j: int| 0 <= j < s5c.len() ==> mid[j] == s5c[j])
                &&& (forall|k: int|
                    s5c.len() <= k < mid.len() ==> splatter_from(s5c, #[trigger] mid[k]))
                &&& (forall|id: u64|
                    #[trigger] pend.contains(id) <==> (p2c.contains(id) || victim_id(s5c, id)
                        || carried_by_victim_id(s5c, id)))
                &&& self.ecs@ == mid.map_values(|r: RecV| spec_anim_rec(r)).filter(
                    |r: RecV| !pend.contains(r.id),
                )
            });
            assert(spec_tick_rel(pre, p0, g, w, h, self.ecs@));
        }
    }

    /// The terrain in its transmissible text form.
    pub fn get_serialized_map(&self) -> (r: String)
        requires
            self.map.wf(),
        ensures
            r@ == crate::codec::enc_tokens(
                crate::codec::tilemap_toks(
                    grid_of(self.map.tiles@),
                    self.map.width as int,
                    self.map.height as int,
                ),
            ),
    {
        serialize_map(&self.map)
    }

    /// The world in its transmissible text form.
    pub fn get_serialized_ecs(&self) -> (r: String)
        requires
            self.ecs.wf(),
            carries_ok(self.ecs@),
        ensures
            r@ == crate::codec::enc_tokens(
                crate::codec::world_toks(crate::codec::wire_of(self.ecs@)),
            ),
    {
        serialize_ecs(&self.ecs)
    }

    /// Apply one client command to the world, dispatching exactly one
    /// handler by its variant; the avatar name of a new player passes
    /// through the profanity filter first.
    pub fn handle_player_input(&mut self, player_input: &PlayerInput)
        requires
            old(self).ecs.wf(),
            old(self).map.wf(),
            has_room(old(self).ecs, 3),
        ensures
            final(self).ecs.wf(),
            carries_ok(old(self).ecs@) ==> carries_ok(final(self).ecs@),
            (carries_ok(old(self).ecs@) && crate::world::pending_ok(old(self).ecs))
                ==> crate::world::pending_ok(final(self).ecs),
            final(self).map == old(self).map,
            match *player_input {
                PlayerInput::CreatePlayer { ref id, ref name } => ((forall|i: int|
                    0 <= i < old(self).ecs@.len() ==> (#[trigger] old(
                        self,
                    ).ecs@[i]).player_info != Option::Some(id@))
                    ==> crate::entities::spec_spawn_created(
                    old(self).ecs,
                    final(self).ecs,
                    old(self).rng.state,
                    final(self).rng.state,
                    old(self).rng.inc,
                    grid_of(old(self).map.tiles@),
                    old(self).map.width as int,
                    old(self).map.height as int,
                    id@,
                    censored(name@),
                    false,
                )) && ((exists|i: int|
                    0 <= i < old(self).ecs@.len() && (#[trigger] old(
                        self,
                    ).ecs@[i]).player_info == Option::Some(id@)) ==> final(self).ecs == old(
                    self,
                ).ecs),
                PlayerInput::DeletePlayer { ref id } => crate::entities::spec_delete_post(
                    old(self).ecs,
                    final(self).ecs,
                    id@,
                ) && final(self).rng == old(self).rng,
                PlayerInput::Click { ref id, x, y } => spec_click_post(
                    old(self).ecs,
                    final(self).ecs,
                    grid_of(old(self).map.tiles@),
                    old(self).map.width as int,
                    old(self).map.height as int,
                    x,
                    y,
                    id@,
                ) && final(self).rng == old(self).rng,
                PlayerInput::Chat { ref id, ref message } => spec_chat_post(
                    old(self).ecs,
                    final(self).ecs,
                    message@,
                    id@,
                ) && final(self).rng == old(self).rng,
                PlayerInput::SpecialInput { ref id, ref input } => spec_input_post(
                    old(self).ecs,
                    final(self).ecs,
                    input@,
                    id@,
                ) && final(self).rng == old(self).rng,
            },
    {
        match player_input {
            PlayerInput::CreatePlayer { id, name } => {
                let censored_name = censor_chat_input(name.as_str());
                let map = &self.map;
                spawn_crab(&mut self.ecs, map, &mut self.rng, id, &censored_name, false);
            },
            PlayerInput::DeletePlayer { id } => {
                delete_player_with_id(&mut self.ecs, id);
            },
            PlayerInput::SpecialInput { id, input } => {
                handle_input(&mut self.ecs, input.as_str(), id);
            },
            PlayerInput::Click { id, x, y } => {
                let map = &self.map;
                handle_click(&mut self.ecs, map, *x, *y, id);
            },
            PlayerInput::Chat { id, message } => {
                handle_chat_input(&mut self.ecs, message.as_str(), id);
            },
        }
    }

    /// Advance the simulation one tick: the full system pipeline in
    /// its load-bearing order, then the queued deletions.
    pub fn tick(&mut self)
        requires
            old(self).ecs.wf(),
            carries_ok(old(self).ecs@),
            pending_ok(old(self).ecs),
            old(self).map.wf(),
        ensures
            final(self).ecs.wf(),
            carries_ok(final(self).ecs@),
            pending_ok(final(self).ecs),
            final(self).ecs.pending@.len() == 0,
            final(self).map == old(self).map,
            final(self).rng == old(self).rng,
            spec_tick_rel(
                old(self).ecs@,
                old(self).ecs.pending@,
                grid_of(old(self).map.tiles@),
                old(self).map.width as int,
                old(self).map.height as int,
                final(self).ecs@,
            ),
    {
        self.run_systems();
    }
}

/// Build a fresh world: generate the island, scatter its initial
/// entities, and wake the two resident crabs, in that order, from one
/// seeded generator.
pub fn initialize_ecs(width: i32, height: i32, seed: u64) -> (r: State)
    requires
        crate::terrain::MIN_DIM <= width <= crate::terrain::MAX_DIM,
        crate::terrain::MIN_DIM <= height <= crate::terrain::MAX_DIM,
    ensures
        r.ecs.wf(),
        carries_ok(r.ecs@),
        crate::world::pending_ok(r.ecs),
        r.ecs.pending@.len() == 0,
        r.map.wf(),
        r.map.width == width && r.map.height == height,
        crate::terrain::grid_of(r.map.tiles@) == crate::terrain::spec_generate_from_seed(
            seed,
            width as int,
            height as int,
        ),
        ({
            let g = crate::terrain::spec_generate_from_seed(seed, width as int, height as int);
            let w = width as int;
            let h = height as int;
            let inc = crate::rng::pcg_seed_state(seed).1;
            let gen_end = crate::terrain::spec_generate_end_state(
                crate::rng::pcg_seed_state(seed).0,
                inc,
                w,
                h,
            );
            exists|w1: State, w2: State|
                {
                    &&& #[trigger] w1.ecs.pending@.len() == 0
                    &&& #[trigger] w2.ecs.pending@.len() == 0
                    &&& ({
                        let trees = crate::entities::spec_fill_trees(
                            Seq::empty(),
                            0,
                            0,
                            gen_end,
                            inc,
                            g,
                            w,
                            h,
                            20,
                        );
                        let ks = crate::terrain::spec_random_location(
                            g,
                            w,
                            h,
                            Option::Some(crate::terrain::TileType::Grass),
                            trees.1,
                            inc,
                        );
                        match ks.0 {
                            Option::Some(l) => w1.ecs@ == trees.0.push(
                                crate::entities::knife_rec(l.x, l.y, trees.2, trees.3),
                            ) && w1.rng.state == ks.1,
                            Option::None => w1.ecs@ == trees.0 && w1.rng.state == ks.1,
                        }
                    })
                    &&& crate::entities::spec_spawn_created(
                        w1.ecs,
                        w2.ecs,
                        w1.rng.state,
                        w2.rng.state,
                        inc,
                        g,
                        w,
                        h,
                        "Chris"@,
                        "Chris"@,
                        true,
                    )
                    &&& crate::entities::spec_spawn_created(
                        w2.ecs,
                        r.ecs,
                        w2.rng.state,
                        r.rng.state,
                        inc,
                        g,
                        w,
                        h,
                        "Tammy"@,
                        "Tammy"@,
                        true,
                    )
                }
        }),
{
    let mut rng = Pcg32::new(seed);
    let map = TileMap::new(&mut rng, width, height);
    let mut ecs = World::new();
    proof {
        assert(ecs@ =~= Seq::<RecV>::empty());
    }
    fill_map(&mut ecs, &map, &mut rng);
    let chris_id = String::from_str("Chris");
    let tammy_id = String::from_str("Tammy");
    let ghost st1 = State { ecs, map, rng };
    proof {
        assert(st1.ecs@ =~= ecs@);
    }
    spawn_crab(&mut ecs, &map, &mut rng, &chris_id, &chris_id, true);
    let ghost st2 = State { ecs, map, rng };
    spawn_crab(&mut ecs, &map, &mut rng, &tammy_id, &tammy_id, true);
    let r = State { ecs, map, rng };
    proof {
        reveal_strlit("Chris");
        reveal_strlit("Tammy");
        let g = crate::terrain::spec_generate_from_seed(seed, width as int, height as int);
        let w = width as int;
        let h = height as int;
        let inc = crate::rng::pcg_seed_state(seed).1;
        let gen_end = crate::terrain::spec_generate_end_state(
            crate::rng::pcg_seed_state(seed).0,
            inc,
            w,
            h,
        );
        let trees = crate::entities::spec_fill_trees(Seq::empty(), 0, 0, gen_end, inc, g, w, h, 20);
        crate::entities::lemma_fill_trees_players(Seq::empty(), 0, 0, gen_end, inc, g, w, h, 20);
        // nothing scattered by the fill is a player, so the first
        // spawn finds its id free
        assert forall|i: int|
            0 <= i < st1.ecs@.len() implies (#[trigger] st1.ecs@[i]).player_info
            != Option::Some("Chris"@) by {
            assert(st1.ecs@[i].player_info is None);
        }
        // the first spawn adds one player, bearing the other name
        assert forall|i: int|
            0 <= i < st2.ecs@.len() implies (#[trigger] st2.ecs@[i]).player_info
            != Option::Some("Tammy"@) by {
            if i < st1.ecs@.len() {
                assert(st2.ecs@[i] == st1.ecs@[i]);
                assert(st1.ecs@[i].player_info is None);
            } else {
                reveal_strlit("Chris");
                reveal_strlit("Tammy");
                assert("Chris"@[0] == 'C' && "Tammy"@[0] == 'T');
                assert("Chris"@ != "Tammy"@);
            }
        }
        assert({
            &&& st1.ecs.pending@.len() == 0
            &&& st2.ecs.pending@.len() == 0
            &&& ({
                let ks = crate::terrain::spec_random_location(
                    g,
                    w,
                    h,
                    Option::Some(crate::terrain::TileType::Grass),
                    trees.1,
                    inc,
                );
                match ks.0 {
                    Option::Some(l) => st1.ecs@ == trees.0.push(
                        crate::entities::knife_rec(l.x, l.y, trees.2, trees.3),
                    ) && st1.rng.state == ks.1,
                    Option::None => st1.ecs@ == trees.0 && st1.rng.state == ks.1,
                }
            })
            &&& crate::entities::spec_spawn_created(
                st1.ecs,
                st2.ecs,
                st1.rng.state,
                st2.rng.state,
                inc,
                g,
                w,
                h,
                "Chris"@,
                "Chris"@,
                true,
            )
            &&& crate::entities::spec_spawn_created(
                st2.ecs,
                r.ecs,
                st2.rng.state,
                r.rng.state,
                inc,
                g,
                w,
                h,
                "Tammy"@,
                "Tammy"@,
                true,
            )
        });
    }
    r
}

} // verus!
