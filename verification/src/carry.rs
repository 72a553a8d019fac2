//! The carry system, which keeps carried entities on their owner's
//! tile, and the pick-up system, which hands items to nearby players.
use vstd::prelude::*;

use crate::components::{CarriedBy, Location, Renderable};
use crate::terrain::{spec_within_pickup, within_pickup_distance};
use crate::world::{
    carries_ok, has_id, idx_of, ids_unique, lemma_idx_of, rec_of, rec_wf, RecV, World,
};

verus! {

/// The carry step applied to one record: a carried entity takes its
/// owner's location verbatim; entities whose owner has no location,
/// or no owner, stay put.
pub open spec fn spec_carry_rec(r: RecV, s: Seq<RecV>) -> RecV {
    match r.carried_by {
        Option::Some(c) => {
            if has_id(s, c.owner) && rec_of(s, c.owner).location is Some {
                RecV { location: rec_of(s, c.owner).location, ..r }
            } else {
                r
            }
        },
        Option::None => r,
    }
}

/// The system that moves every carried entity onto its owner.
pub struct CarrySystem {
}

impl CarrySystem {
    /// Copy each owner's location onto everything it carries.  The
    /// owners read here are players, which are never carried
    /// themselves, so the locations read are the locations before
    /// this system ran.
    pub fn run(ecs: &mut World)
        requires
            old(ecs).wf(),
            carries_ok(old(ecs)@),
        ensures
            final(ecs).wf(),
            carries_ok(final(ecs)@),
            final(ecs)@ == Seq::new(
                old(ecs)@.len(),
                |i: int| spec_carry_rec(old(ecs)@[i], old(ecs)@),
            ),
            final(ecs).pending == old(ecs).pending,
            final(ecs).next_id == old(ecs).next_id,
            final(ecs).next_marker == old(ecs).next_marker,
    {
        let ghost origv = ecs@;
        let n = ecs.ents.len();
        let mut i: usize = 0;
        while i < n
            invariant
                old(ecs).wf(),
                carries_ok(origv),
                origv == old(ecs)@,
                n == ecs.ents@.len(),
                n == origv.len(),
                i <= n,
                ecs.pending == old(ecs).pending,
                ecs.next_id == old(ecs).next_id,
                ecs.next_marker == old(ecs).next_marker,
                forall|j: int|
                    0 <= j < i ==> ecs@[j] == spec_carry_rec(#[trigger] origv[j], origv),
                forall|j: int| i <= j < n ==> ecs@[j] == #[trigger] origv[j],
                forall|j: int| 0 <= j < n ==> (#[trigger] ecs@[j]).id == origv[j].id,
            decreases n - i,
        {
            let cb = ecs.ents[i].carried_by;
            if let Option::Some(c) = cb {
                proof {
                    assert(origv[i as int].carried_by == Option::Some(c));
                    assert(has_id(origv, c.owner));
                    lemma_idx_of(origv, c.owner);
                }
                let owner_idx_opt = ecs.index_of(c.owner);
                if let Option::Some(k) = owner_idx_opt {
                    proof {
                        // the owner is a player, players are never
                        // carried, so its record is still untouched
                        assert(ecs@[k as int].id == c.owner);
                        assert(origv[k as int].id == c.owner);
                        lemma_idx_of(origv, c.owner);
                        if idx_of(origv, c.owner) != k as int {
                            assert(origv[idx_of(origv, c.owner)].id == c.owner);
                            assert(ids_unique(origv));
                        }
                        assert(origv[k as int] == rec_of(origv, c.owner));
                        assert(rec_of(origv, c.owner).player_info is Some);
                        assert(rec_wf(origv[k as int]));
                        assert(origv[k as int].carried_by is None);
                        if (k as int) < i as int {
                            assert(ecs@[k as int] == spec_carry_rec(origv[k as int], origv));
                            assert(ecs@[k as int] == origv[k as int]);
                        }
                        assert(ecs@[k as int].location == origv[k as int].location);
                    }
                    let owner_loc = ecs.ents[k].location;
                    if let Option::Some(l) = owner_loc {
                        let r = &mut ecs.ents[i];
                        r.location = Option::Some(l);
                        proof {
                            assert(ecs@[i as int] =~= spec_carry_rec(origv[i as int], origv));
                        }
                    } else {
                        proof {
                            assert(ecs@[i as int] =~= spec_carry_rec(origv[i as int], origv));
                        }
                    }
                }
            }
            i = i + 1;
        }
        proof {
            assert(ecs@ =~= Seq::new(origv.len(), |i: int| spec_carry_rec(origv[i], origv)));
            assert forall|j: int| 0 <= j < n implies rec_wf(#[trigger] ecs@[j]) by {
                assert(rec_wf(origv[j]));
                if origv[j].carried_by is Some {
                    let c = origv[j].carried_by->Some_0;
                    if has_id(origv, c.owner) && rec_of(origv, c.owner).location is Some {
                        lemma_idx_of(origv, c.owner);
                        assert(rec_wf(origv[idx_of(origv, c.owner)]));
                    }
                }
            }
            crate::world::lemma_carries_ok_transfer(origv, ecs@);
        }
    }
}

/// Whether this record is a positioned player within pick-up range
/// of `loc` that is not already queued for deletion: handing an item
/// to a player the next maintain removes would orphan the item.
pub open spec fn player_in_range(r: RecV, loc: Location, pend: Seq<u64>) -> bool {
    r.player_info is Some && !pend.contains(r.id) && (match r.location {
        Option::Some(pl) => spec_within_pickup(loc, pl),
        Option::None => false,
    })
}

/// Index of the last eligible player within pick-up range of `loc`,
/// or minus one when no player is in range.
pub open spec fn last_player_in_range(s: Seq<RecV>, loc: Location, pend: Seq<u64>) -> int
    decreases s.len(),
{
    if s.len() == 0 {
        -1
    } else if player_in_range(s.last(), loc, pend) {
        s.len() - 1
    } else {
        last_player_in_range(s.drop_last(), loc, pend)
    }
}

/// The winning player index is an eligible player in range.
pub proof fn lemma_last_player_in_range(s: Seq<RecV>, loc: Location, pend: Seq<u64>)
    ensures
        last_player_in_range(s, loc, pend) >= 0 ==> ({
            let k = last_player_in_range(s, loc, pend);
            0 <= k < s.len() && player_in_range(s[k], loc, pend)
        }),
        last_player_in_range(s, loc, pend) < 0 ==> forall|j: int|
            0 <= j < s.len() ==> !player_in_range(#[trigger] s[j], loc, pend),
    decreases s.len(),
{
    if s.len() > 0 {
        lemma_last_player_in_range(s.drop_last(), loc, pend);
        if !player_in_range(s.last(), loc, pend) {
            if last_player_in_range(s, loc, pend) < 0 {
                assert forall|j: int|
                    0 <= j < s.len() implies !player_in_range(#[trigger] s[j], loc, pend) by {
                    if j < s.len() - 1 {
                        assert(s.drop_last()[j] == s[j]);
                    }
                }
            }
        }
    }
}

/// The pick-up step applied to one record: an item waiting to be
/// picked up, with a player in range, becomes carried by that player,
/// stops waiting, and is promoted to the rendering foreground.
pub open spec fn spec_pickup_rec(r: RecV, s: Seq<RecV>, pend: Seq<u64>) -> RecV {
    match r.location {
        Option::Some(loc) => {
            if r.wants_to_be_picked_up {
                let k = last_player_in_range(s, loc, pend);
                if k >= 0 {
                    RecV {
                        carried_by: Option::Some(CarriedBy { owner: s[k].id }),
                        wants_to_be_picked_up: false,
                        renderable: Option::Some(Renderable { render_order: 0 }),
                        ..r
                    }
                } else {
                    r
                }
            } else {
                r
            }
        },
        Option::None => r,
    }
}

/// Picking up keeps every carry relation pointed at a live player:
/// old relations are untouched and each new one points at the player
/// that won the scan.
proof fn lemma_pickup_carries_ok(s: Seq<RecV>, pend: Seq<u64>)
    requires
        ids_unique(s),
        forall|i: int| 0 <= i < s.len() ==> rec_wf(#[trigger] s[i]),
        carries_ok(s),
    ensures
        carries_ok(Seq::new(s.len(), |i: int| spec_pickup_rec(s[i], s, pend))),
{
    let f = Seq::new(s.len(), |i: int| spec_pickup_rec(s[i], s, pend));
    assert forall|i: int| 0 <= i < s.len() implies (#[trigger] f[i]).id == s[i].id by {}
    assert forall|i2: int|
        0 <= i2 < f.len() implies ((#[trigger] f[i2]).carried_by matches Option::Some(c)
        ==> has_id(f, c.owner) && rec_of(f, c.owner).player_info is Some) by {
        if f[i2].carried_by is Some {
            let c = f[i2].carried_by->Some_0;
            let applied = s[i2].location is Some && s[i2].wants_to_be_picked_up
                && last_player_in_range(s, s[i2].location->Some_0, pend) >= 0;
            let k: int = if applied {
                last_player_in_range(s, s[i2].location->Some_0, pend)
            } else {
                idx_of(s, c.owner)
            };
            if applied {
                let loc = s[i2].location->Some_0;
                lemma_last_player_in_range(s, loc, pend);
                assert(c.owner == s[k].id);
            } else {
                assert(s[i2].carried_by == f[i2].carried_by);
                lemma_idx_of(s, c.owner);
            }
            assert(0 <= k < s.len() && s[k].id == c.owner && s[k].player_info is Some);
            assert(f[k].id == c.owner);
            assert(has_id(f, c.owner));
            // the winning player keeps its player information: a
            // player is never itself an item waiting to be picked up
            assert(rec_wf(s[k]));
            assert(f[k].player_info is Some);
            crate::world::lemma_idx_of_same_ids(s, f, c.owner);
            lemma_idx_of(s, c.owner);
            lemma_idx_of(f, c.owner);
            if idx_of(f, c.owner) != k {
                assert(s[idx_of(s, c.owner)].id == c.owner);
                assert(f[idx_of(f, c.owner)].id == c.owner);
            }
            assert(rec_of(f, c.owner).player_info is Some);
        }
    }
}

/// The system that hands waiting items to players within range.
pub struct PickUpSystem {
}

impl PickUpSystem {
    /// Attach a carry relation to every waiting item that has a
    /// player within pick-up range; when several players are in
    /// range, the one latest in the arena wins.
    pub fn run(ecs: &mut World)
        requires
            old(ecs).wf(),
            carries_ok(old(ecs)@),
        ensures
            final(ecs).wf(),
            carries_ok(final(ecs)@),
            final(ecs)@ == Seq::new(
                old(ecs)@.len(),
                |i: int| spec_pickup_rec(old(ecs)@[i], old(ecs)@, old(ecs).pending@),
            ),
            final(ecs).pending == old(ecs).pending,
            final(ecs).next_id == old(ecs).next_id,
            final(ecs).next_marker == old(ecs).next_marker,
    {
        let ghost origv = ecs@;
        let ghost pend = ecs.pending@;
        let n = ecs.ents.len();
        let mut i: usize = 0;
        while i < n
            invariant
                old(ecs).wf(),
                origv == old(ecs)@,
                n == ecs.ents@.len(),
                n == origv.len(),
                i <= n,
                ecs.pending == old(ecs).pending,
                ecs.next_id == old(ecs).next_id,
                ecs.next_marker == old(ecs).next_marker,
                pend == ecs.pending@,
                forall|j: int|
                    0 <= j < i ==> ecs@[j] == spec_pickup_rec(#[trigger] origv[j], origv, pend),
                forall|j: int| i <= j < n ==> ecs@[j] == #[trigger] origv[j],
            decreases n - i,
        {
            let is_item = ecs.ents[i].wants_to_be_picked_up.is_some()
                && ecs.ents[i].location.is_some();
            if is_item {
                let item_loc = match ecs.ents[i].location {
                    Option::Some(l) => l,
                    Option::None => Location { x: 0, y: 0 },
                };
                let mut winner: Option<usize> = Option::None;
                let mut j: usize = 0;
                while j < n
                    invariant
                        origv == old(ecs)@,
                        pend == ecs.pending@,
                        n == ecs.ents@.len(),
                        n == origv.len(),
                        i < n,
                        j <= n,
                        forall|q: int|
                            0 <= q < i ==> ecs@[q] == spec_pickup_rec(
                                #[trigger] origv[q],
                                origv,
                                pend,
                            ),
                        forall|q: int| i <= q < n ==> ecs@[q] == #[trigger] origv[q],
                        match winner {
                            Option::Some(w) => w < n && w as int == last_player_in_range(
                                origv.subrange(0, j as int),
                                item_loc,
                                pend,
                            ),
                            Option::None => last_player_in_range(
                                origv.subrange(0, j as int),
                                item_loc,
                                pend,
                            ) < 0,
                        },
                    decreases n - j,
                {
                    proof {
                        let t = origv.subrange(0, j as int + 1);
                        assert(t.drop_last() =~= origv.subrange(0, j as int));
                        assert(t.last() == origv[j as int]);
                        if (j as int) < i as int {
                            assert(ecs@[j as int] == spec_pickup_rec(
                                origv[j as int],
                                origv,
                                pend,
                            ));
                        }
                        assert(ecs@[j as int].player_info == origv[j as int].player_info);
                        assert(ecs@[j as int].location == origv[j as int].location);
                        assert(ecs@[j as int].id == origv[j as int].id);
                    }
                    let is_player = ecs.ents[j].player_info.is_some()
                        && ecs.ents[j].location.is_some();
                    if is_player {
                        let jid = ecs.ents[j].id;
                        let mut queued = false;
                        let mut q: usize = 0;
                        while q < ecs.pending.len()
                            invariant
                                pend == ecs.pending@,
                                q <= pend.len(),
                                jid == origv[j as int].id,
                                j < n,
                                n == origv.len(),
                                queued == exists|w: int| 0 <= w < q && pend[w] == jid,
                            decreases pend.len() - q,
                        {
                            if ecs.pending[q] == jid {
                                queued = true;
                            }
                            q = q + 1;
                        }
                        proof {
                            assert(queued == pend.contains(jid));
                        }
                        let ploc = match ecs.ents[j].location {
                            Option::Some(l) => l,
                            Option::None => Location { x: 0, y: 0 },
                        };
                        if !queued && within_pickup_distance(&item_loc, &ploc) {
                            winner = Option::Some(j);
                            proof {
                                assert(player_in_range(origv[j as int], item_loc, pend));
                            }
                        } else {
                            proof {
                                assert(!player_in_range(origv[j as int], item_loc, pend));
                            }
                        }
                    } else {
                        proof {
                            assert(!player_in_range(origv[j as int], item_loc, pend));
                        }
                    }
                    j = j + 1;
                }
                proof {
                    assert(origv.subrange(0, n as int) =~= origv);
                }
                if let Option::Some(w) = winner {
                    let owner_id = ecs.ents[w].id;
                    proof {
                        assert(ecs@[w as int].id == origv[w as int].id);
                    }
                    let r = &mut ecs.ents[i];
                    r.carried_by = Option::Some(CarriedBy { owner: owner_id });
                    r.wants_to_be_picked_up = Option::None;
                    r.renderable = Option::Some(Renderable { render_order: 0 });
                    proof {
                        assert(ecs@[i as int] =~= spec_pickup_rec(origv[i as int], origv, pend));
                    }
                }
            }
            i = i + 1;
        }
        proof {
            assert(ecs@ =~= Seq::new(
                origv.len(),
                |i: int| spec_pickup_rec(origv[i], origv, pend),
            ));
            assert forall|j: int| 0 <= j < n implies rec_wf(#[trigger] ecs@[j]) by {
                assert(rec_wf(origv[j]));
            }
            lemma_pickup_carries_ok(origv, pend);
        }
    }
}

} // verus!
