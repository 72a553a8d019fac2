//! The crab behaviour system: a four-state walk/sleep cycle that
//! queues single-tile movement intents, never onto water.
use vstd::prelude::*;

use crate::components::{CrabAI, CrabAIState, WantsToMoveTo};
use crate::terrain::{grid_of, spec_walkable, valid_walking_location, TileMap, TileType};
use crate::world::{rec_wf, RecV, World};

verus! {

/// The cycle: walking right, sleeping right, walking left, sleeping
/// left, and around again.
pub open spec fn spec_next_crab_state(s: CrabAIState) -> CrabAIState {
    match s {
        CrabAIState::WalkingRight => CrabAIState::SleepingRight,
        CrabAIState::SleepingRight => CrabAIState::WalkingLeft,
        CrabAIState::WalkingLeft => CrabAIState::SleepingLeft,
        CrabAIState::SleepingLeft => CrabAIState::WalkingRight,
    }
}

/// The crab step applied to one record: the phase counter advances or
/// rolls the cycle over, and while walking the crab queues an intent
/// one tile in its facing direction — only when that tile is
/// walkable, so a crab never queues an intent into the sea.
pub open spec fn spec_crab_rec(r: RecV, g: Seq<Seq<TileType>>, w: int, h: int) -> RecV {
    match (r.crab_ai, r.location) {
        (Option::Some(c), Option::Some(loc)) => {
            let c2 = if c.ticks == c.tick_interval {
                CrabAI { crab_state: spec_next_crab_state(c.crab_state), ticks: 0, ..c }
            } else {
                CrabAI { ticks: (c.ticks + 1) as i16, ..c }
            };
            let tx: int = match c2.crab_state {
                CrabAIState::WalkingRight => loc.x + 1,
                CrabAIState::WalkingLeft => loc.x - 1,
                _ => loc.x as int,
            };
            if spec_walkable(g, w, h, tx, loc.y as int) {
                RecV {
                    crab_ai: Option::Some(c2),
                    wants_to_move_to: Option::Some(
                        WantsToMoveTo { x: tx as i32, y: loc.y, speed: c2.walk_speed },
                    ),
                    ..r
                }
            } else {
                RecV { crab_ai: Option::Some(c2), ..r }
            }
        },
        _ => r,
    }
}

/// The system that drives every crab through its cycle.
pub struct CrabAISystem {
}

impl CrabAISystem {
    /// Advance every crab's phase and queue its next step.
    pub fn run(ecs: &mut World, map: &TileMap)
        requires
            old(ecs).wf(),
            map.wf(),
        ensures
            final(ecs).wf(),
            final(ecs)@ == Seq::new(
                old(ecs)@.len(),
                |i: int|
                    spec_crab_rec(
                        old(ecs)@[i],
                        grid_of(map.tiles@),
                        map.width as int,
                        map.height as int,
                    ),
            ),
            final(ecs).pending == old(ecs).pending,
            final(ecs).next_id == old(ecs).next_id,
            final(ecs).next_marker == old(ecs).next_marker,
    {
        let ghost origv = ecs@;
        let ghost g = grid_of(map.tiles@);
        let ghost w = map.width as int;
        let ghost h = map.height as int;
        let n = ecs.ents.len();
        let mut i: usize = 0;
        while i < n
            invariant
                old(ecs).wf(),
                map.wf(),
                origv == old(ecs)@,
                g == grid_of(map.tiles@),
                w == map.width as int,
                h == map.height as int,
                n == ecs.ents@.len(),
                n == origv.len(),
                i <= n,
                ecs.pending == old(ecs).pending,
                ecs.next_id == old(ecs).next_id,
                ecs.next_marker == old(ecs).next_marker,
                forall|j: int|
                    0 <= j < i ==> ecs@[j] == spec_crab_rec(#[trigger] origv[j], g, w, h),
                forall|j: int| i <= j < n ==> ecs@[j] == #[trigger] origv[j],
            decreases n - i,
        {
            proof {
                assert(rec_wf(origv[i as int]));
            }
            let has_both = ecs.ents[i].crab_ai.is_some() && ecs.ents[i].location.is_some();
            if has_both {
                let c = match ecs.ents[i].crab_ai {
                    Option::Some(c) => c,
                    Option::None => CrabAI {
                        crab_state: CrabAIState::WalkingRight,
                        tick_interval: 0,
                        ticks: 0,
                        walk_speed: 0,
                        sleep_duration: 0,
                    },
                };
                let loc = match ecs.ents[i].location {
                    Option::Some(l) => l,
                    Option::None => crate::components::Location { x: 0, y: 0 },
                };
                let c2 = if c.ticks == c.tick_interval {
                    let next_state = match c.crab_state {
                        CrabAIState::WalkingRight => CrabAIState::SleepingRight,
                        CrabAIState::SleepingRight => CrabAIState::WalkingLeft,
                        CrabAIState::WalkingLeft => CrabAIState::SleepingLeft,
                        CrabAIState::SleepingLeft => CrabAIState::WalkingRight,
                    };
                    CrabAI { crab_state: next_state, ticks: 0, ..c }
                } else {
                    CrabAI { ticks: c.ticks + 1, ..c }
                };
                let tx: i32 = match c2.crab_state {
                    CrabAIState::WalkingRight => loc.x + 1,
                    CrabAIState::WalkingLeft => loc.x - 1,
                    _ => loc.x,
                };
                let desired = WantsToMoveTo { x: tx, y: loc.y, speed: c2.walk_speed };
                let walkable = valid_walking_location(map, &desired);
                let r = &mut ecs.ents[i];
                r.crab_ai = Option::Some(c2);
                if walkable {
                    r.wants_to_move_to = Option::Some(desired);
                }
                proof {
                    assert(ecs@[i as int] =~= spec_crab_rec(origv[i as int], g, w, h));
                }
            }
            i = i + 1;
        }
        proof {
            assert(ecs@ =~= Seq::new(origv.len(), |i: int| spec_crab_rec(origv[i], g, w, h)));
            assert forall|j: int| 0 <= j < n implies rec_wf(#[trigger] ecs@[j]) by {
                assert(rec_wf(origv[j]));
            }
        }
    }
}

} // verus!
