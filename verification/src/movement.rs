//! The movement system: Manhattan-greedy steps toward a movement
//! intent.
//!
//! Of the two conceivable intent policies — clear the intent every
//! tick, or leave it in place until the target is reached — this
//! world keeps the intent in place: an entity with a fixed intent
//! walks to its target over several ticks and then rests there, which
//! is what the convergence law below is about.
use vstd::prelude::*;

use crate::components::{Location, WantsToMoveTo};
use crate::world::{rec_wf, RecV, World};

verus! {

/// Magnitude of a spec-level distance.
pub open spec fn abs_int(x: int) -> int {
    if x >= 0 {
        x
    } else {
        -x
    }
}

/// One movement step: move up to `speed` tiles toward the target
/// along whichever axis has the larger remaining distance, never
/// diagonally; at the target, stay.
pub open spec fn spec_move_step(loc: Location, mt: WantsToMoveTo) -> Location {
    let speed = mt.speed as int;
    let dist_x = mt.x - loc.x;
    let dist_y = mt.y - loc.y;
    if dist_x == 0 && dist_y == 0 {
        loc
    } else if abs_int(dist_x) > abs_int(dist_y) {
        if speed > abs_int(dist_x) {
            Location { x: mt.x, y: loc.y }
        } else if dist_x > 0 {
            Location { x: (loc.x + speed) as i32, y: loc.y }
        } else {
            Location { x: (loc.x - speed) as i32, y: loc.y }
        }
    } else {
        if speed > abs_int(dist_y) {
            Location { x: loc.x, y: mt.y }
        } else if dist_y > 0 {
            Location { x: loc.x, y: (loc.y + speed) as i32 }
        } else {
            Location { x: loc.x, y: (loc.y - speed) as i32 }
        }
    }
}

/// The movement step applied to one record: entities holding both a
/// location and an intent take one step; everything else is left
/// alone.
pub open spec fn spec_move_rec(r: RecV) -> RecV {
    match (r.location, r.wants_to_move_to) {
        (Option::Some(loc), Option::Some(mt)) => RecV {
            location: Option::Some(spec_move_step(loc, mt)),
            ..r
        },
        _ => r,
    }
}

/// Within the coordinate bound, one step stays within the box spanned
/// by the position and the target.
pub proof fn lemma_move_step_bounded(loc: Location, mt: WantsToMoveTo)
    requires
        crate::world::coords_bounded(loc.x as int, loc.y as int),
        crate::world::coords_bounded(mt.x as int, mt.y as int),
        mt.speed >= 0,
    ensures
        crate::world::coords_bounded(
            spec_move_step(loc, mt).x as int,
            spec_move_step(loc, mt).y as int,
        ),
{
}

/// The system that applies every movement intent once.
pub struct MovementSystem {
}

impl MovementSystem {
    /// Advance every entity holding a location and an intent one step
    /// toward its target.
    pub fn run(ecs: &mut World)
        requires
            old(ecs).wf(),
        ensures
            final(ecs).wf(),
            final(ecs)@ == old(ecs)@.map_values(|r: RecV| spec_move_rec(r)),
            final(ecs).pending == old(ecs).pending,
            final(ecs).next_id == old(ecs).next_id,
            final(ecs).next_marker == old(ecs).next_marker,
    {
        let ghost origv = ecs@;
        let n = ecs.ents.len();
        let mut i: usize = 0;
        while i < n
            invariant
                old(ecs).wf(),
                origv == old(ecs)@,
                n == ecs.ents@.len(),
                n == origv.len(),
                i <= n,
                ecs.pending == old(ecs).pending,
                ecs.next_id == old(ecs).next_id,
                ecs.next_marker == old(ecs).next_marker,
                forall|j: int| 0 <= j < i ==> ecs@[j] == spec_move_rec(#[trigger] origv[j]),
                forall|j: int| i <= j < n ==> ecs@[j] == #[trigger] origv[j],
            decreases n - i,
        {
            let loc_opt = ecs.ents[i].location;
            let mt_opt = ecs.ents[i].wants_to_move_to;
            if let (Option::Some(loc), Option::Some(mt)) = (loc_opt, mt_opt) {
                proof {
                    assert(rec_wf(origv[i as int]));
                }
                let speed = mt.speed as i32;
                let dist_x = mt.x - loc.x;
                let dist_y = mt.y - loc.y;
                let abs_x = if dist_x >= 0 { dist_x } else { -dist_x };
                let abs_y = if dist_y >= 0 { dist_y } else { -dist_y };
                let mut new_x = loc.x;
                let mut new_y = loc.y;
                if dist_x == 0 && dist_y == 0 {
                } else if abs_x > abs_y {
                    if speed > abs_x {
                        new_x = mt.x;
                    } else if dist_x > 0 {
                        new_x = loc.x + speed;
                    } else {
                        new_x = loc.x - speed;
                    }
                } else {
                    if speed > abs_y {
                        new_y = mt.y;
                    } else if dist_y > 0 {
                        new_y = loc.y + speed;
                    } else {
                        new_y = loc.y - speed;
                    }
                }
                let new_loc = Location { x: new_x, y: new_y };
                proof {
                    assert(new_loc == spec_move_step(loc, mt));
                }
                let r = &mut ecs.ents[i];
                r.location = Option::Some(new_loc);
                proof {
                    assert(ecs@[i as int] =~= spec_move_rec(origv[i as int]));
                }
            }
            i = i + 1;
        }
        proof {
            assert(ecs@ =~= origv.map_values(|r: RecV| spec_move_rec(r)));
            assert forall|j: int| 0 <= j < n implies rec_wf(#[trigger] ecs@[j]) by {
                assert(rec_wf(origv[j]));
                if origv[j].location is Some && origv[j].wants_to_move_to is Some {
                    lemma_move_step_bounded(
                        origv[j].location->Some_0,
                        origv[j].wants_to_move_to->Some_0,
                    );
                }
            }
        }
    }
}

} // verus!

verus! {

/// The position after `n` movement ticks with a fixed intent.
pub open spec fn iterate_move(loc: Location, mt: WantsToMoveTo, n: nat) -> Location
    decreases n,
{
    if n == 0 {
        loc
    } else {
        iterate_move(spec_move_step(loc, mt), mt, (n - 1) as nat)
    }
}

/// Law: an entity that has reached its target stays there, however
/// often it is ticked.
pub proof fn lemma_move_stops(loc: Location, mt: WantsToMoveTo, n: nat)
    requires
        loc.x == mt.x,
        loc.y == mt.y,
    ensures
        iterate_move(loc, mt, n) == loc,
    decreases n,
{
    if n > 0 {
        assert(spec_move_step(loc, mt) == loc);
        lemma_move_stops(loc, mt, (n - 1) as nat);
    }
}

/// Law: with a fixed intent along one axis, an entity reaches its
/// target in exactly the ceiling of distance over speed ticks, and
/// rests there afterwards.  When both axes differ the walk is
/// Manhattan-greedy, one axis per tick, so the bound along each axis
/// composes instead.
pub proof fn lemma_move_converges_axis(loc: Location, mt: WantsToMoveTo, n: nat)
    requires
        loc.y == mt.y,
        mt.speed >= 1,
        crate::world::coords_bounded(loc.x as int, loc.y as int),
        crate::world::coords_bounded(mt.x as int, mt.y as int),
        n >= (abs_int(mt.x - loc.x) + mt.speed - 1) / (mt.speed as int),
    ensures
        iterate_move(loc, mt, n) == (Location { x: mt.x, y: mt.y }),
    decreases n,
{
    let s = mt.speed as int;
    let d = abs_int(mt.x - loc.x);
    if d == 0 {
        assert(loc == Location { x: mt.x, y: mt.y });
        lemma_move_stops(loc, mt, n);
    } else {
        assert((d + s - 1) / s >= 1) by (nonlinear_arith)
            requires d >= 1, s >= 1;
        let next = spec_move_step(loc, mt);
        assert(next.y == mt.y);
        if s > d {
            assert(next == Location { x: mt.x, y: loc.y });
            lemma_move_stops(next, mt, (n - 1) as nat);
        } else {
            let d2 = abs_int(mt.x - next.x);
            assert(d2 == d - s);
            assert((d2 + s - 1) / s == (d + s - 1) / s - 1) by (nonlinear_arith)
                requires d2 == d - s, d >= s, s >= 1;
            lemma_move_converges_axis(next, mt, (n - 1) as nat);
        }
    }
}

} // verus!
