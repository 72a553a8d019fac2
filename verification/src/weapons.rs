//! The stab system: a carried stab-capable item eliminates every
//! other player within pick-up range, cascading the deletion to
//! everything the victim carries and leaving a blood splatter behind.
use vstd::prelude::*;

use crate::components::{Disappearing, GraphicRenderable, Location, Renderable};
use crate::terrain::{spec_within_pickup, within_pickup_distance};
use crate::world::{carries_ok, rec_wf, EntityRecord, RecV, World};

verus! {

/// A record that can stab right now: it bears the marker, is carried,
/// and stands somewhere.
pub open spec fn is_stab_item(r: RecV) -> bool {
    r.wants_to_stab && r.location is Some && r.carried_by is Some
}

/// Item `i` stabs player `j`: the item is live, the player is not the
/// item's own carrier, and the two stand within pick-up range.
pub open spec fn stab_pair(s: Seq<RecV>, i: int, j: int) -> bool {
    &&& 0 <= i < s.len()
    &&& 0 <= j < s.len()
    &&& is_stab_item(s[i])
    &&& s[j].player_info is Some
    &&& s[j].location is Some
    &&& s[i].carried_by->Some_0.owner != s[j].id
    &&& spec_within_pickup(s[i].location->Some_0, s[j].location->Some_0)
}

/// The record at `j` is eliminated this tick.
pub open spec fn is_victim(s: Seq<RecV>, j: int) -> bool {
    exists|i: int| stab_pair(s, i, j)
}

/// The id belongs to a victim.
pub open spec fn victim_id(s: Seq<RecV>, id: u64) -> bool {
    exists|j: int| 0 <= j < s.len() && (#[trigger] s[j]).id == id && is_victim(s, j)
}

/// The id belongs to an entity carried by a victim.
pub open spec fn carried_by_victim_id(s: Seq<RecV>, id: u64) -> bool {
    exists|k: int|
        0 <= k < s.len() && (#[trigger] s[k]).id == id && (s[k].carried_by matches Option::Some(c)
            && victim_id(s, c.owner))
}

/// The record is carried and its owner is `owner`.
pub open spec fn carried_with_owner(r: RecV, owner: u64) -> bool {
    match r.carried_by {
        Option::Some(c) => c.owner == owner,
        Option::None => false,
    }
}

/// Appending to a queue adds exactly the appended id.
pub proof fn lemma_push_contains(s: Seq<u64>, x: u64, id: u64)
    ensures
        s.push(x).contains(id) <==> (s.contains(id) || id == x),
{
    if s.push(x).contains(id) {
        let w = choose|w: int| 0 <= w < s.push(x).len() && s.push(x)[w] == id;
        if w < s.len() {
            assert(s[w] == id);
        }
    }
    if s.contains(id) {
        let w = choose|w: int| 0 <= w < s.len() && s[w] == id;
        assert(s.push(x)[w] == id);
    }
    if id == x {
        assert(s.push(x)[s.len() as int] == id);
    }
}

/// The record is a blood splatter left at some victim's last
/// location.
pub open spec fn splatter_from(s: Seq<RecV>, r: RecV) -> bool {
    exists|j: int|
        0 <= j < s.len() && is_victim(s, j) && splatter_rec(r, (#[trigger] s[j]).location->Some_0)
}

/// The view of a blood splatter left at `loc`.
pub open spec fn splatter_rec(r: RecV, loc: Location) -> bool {
    &&& r.location == Option::Some(loc)
    &&& r.renderable == Option::Some(Renderable { render_order: 5 })
    &&& (r.graphic_renderable matches Option::Some(g) && g.image_name == "blood_splatter"@)
    &&& r.disappearing == Option::Some(Disappearing { total_ticks: 100, ticks_left: 100 })
    &&& r.player_info is None
    &&& r.carried_by is None
}

/// The pair `v` names a victim and its last location.
pub open spec fn victim_entry(s: Seq<RecV>, v: (u64, Location)) -> bool {
    exists|j: int|
        0 <= j < s.len() && (#[trigger] s[j]).id == v.0 && is_victim(s, j) && s[j].location
            == Option::Some(v.1)
}

/// Some collected pair names the player at `b`.
pub open spec fn victim_recorded(s: Seq<RecV>, vs: Seq<(u64, Location)>, b: int) -> bool {
    exists|p: int| 0 <= p < vs.len() && (#[trigger] vs[p]).0 == s[b].id
}

/// The id names an entity carried by `owner`.
pub open spec fn carried_of(s: Seq<RecV>, id: u64, owner: u64) -> bool {
    exists|k: int|
        0 <= k < s.len() && (#[trigger] s[k]).id == id && carried_with_owner(s[k], owner)
}

/// What the deletion queue holds after the first `p` collected pairs
/// were processed.
pub open spec fn stab_queued(
    s: Seq<RecV>,
    vs: Seq<(u64, Location)>,
    pend0: Seq<u64>,
    p: int,
    id: u64,
) -> bool {
    pend0.contains(id) || exists|q: int|
        0 <= q < p && ((#[trigger] vs[q]).0 == id || carried_of(s, id, vs[q].0))
}

proof fn lemma_recorded_push(s: Seq<RecV>, vs: Seq<(u64, Location)>, v: (u64, Location), b: int)
    requires
        victim_recorded(s, vs, b),
    ensures
        victim_recorded(s, vs.push(v), b),
{
    let p = choose|p: int| 0 <= p < vs.len() && (#[trigger] vs[p]).0 == s[b].id;
    assert(vs.push(v)[p] == vs[p]);
}

/// The system that resolves stabbings.
pub struct StabSystem {
}

impl StabSystem {
    /// Scan every carried stab item against every other player; each
    /// player within range is queued for deletion together with
    /// everything it carries, and a blood splatter is spawned at the
    /// victim's last location.  Deletions take effect at the next
    /// maintain.
    #[verifier::rlimit(80)]
    pub fn run_now_manually(ecs: &mut World)
        requires
            old(ecs).wf(),
        ensures
            final(ecs).wf(),
            final(ecs)@.len() >= old(ecs)@.len(),
            forall|j: int| 0 <= j < old(ecs)@.len() ==> final(ecs)@[j] == #[trigger] old(ecs)@[j],
            forall|id: u64|
                #[trigger] final(ecs).pending@.contains(id) <==> (old(ecs).pending@.contains(id)
                    || victim_id(old(ecs)@, id) || carried_by_victim_id(old(ecs)@, id)),
            forall|k: int|
                old(ecs)@.len() <= k < final(ecs)@.len() ==> splatter_from(
                    old(ecs)@,
                    #[trigger] final(ecs)@[k],
                ),
            final(ecs).next_id >= old(ecs).next_id,
            final(ecs).next_marker >= old(ecs).next_marker,
            carries_ok(old(ecs)@) ==> carries_ok(final(ecs)@),
            (final(ecs).next_id < u64::MAX && final(ecs).next_marker < u64::MAX) ==> (forall|
                j: int,
            |
                0 <= j < old(ecs)@.len() && is_victim(old(ecs)@, j) ==> exists|k: int|
                    old(ecs)@.len() <= k < final(ecs)@.len() && splatter_rec(
                        #[trigger] final(ecs)@[k],
                        (#[trigger] old(ecs)@[j]).location->Some_0,
                    )),
    {
        let ghost origv = ecs@;
        let n = ecs.ents.len();

        // collect the stabbings first, so the scan never reads
        // half-updated state
        let mut victims: Vec<(u64, Location)> = Vec::new();
        let mut i: usize = 0;
        while i < n
            invariant
                old(ecs).wf(),
                origv == old(ecs)@,
                *ecs == *old(ecs),
                n == origv.len(),
                i <= n,
                forall|p: int|
                    0 <= p < victims@.len() ==> victim_entry(origv, #[trigger] victims@[p]),
                forall|a: int, b: int|
                    #![trigger stab_pair(origv, a, b)]
                    0 <= a < i && 0 <= b < n && stab_pair(origv, a, b) ==> victim_recorded(
                        origv,
                        victims@,
                        b,
                    ),
            decreases n - i,
        {
            let is_item = ecs.ents[i].wants_to_stab.is_some() && ecs.ents[i].location.is_some()
                && ecs.ents[i].carried_by.is_some();
            if is_item {
                let item_loc = match ecs.ents[i].location {
                    Option::Some(l) => l,
                    Option::None => Location { x: 0, y: 0 },
                };
                let owner = match ecs.ents[i].carried_by {
                    Option::Some(c) => c.owner,
                    Option::None => 0,
                };
                let mut j: usize = 0;
                while j < n
                    invariant
                        old(ecs).wf(),
                        origv == old(ecs)@,
                        *ecs == *old(ecs),
                        n == origv.len(),
                        i < n,
                        j <= n,
                        is_stab_item(origv[i as int]),
                        origv[i as int].location == Option::Some(item_loc),
                        origv[i as int].carried_by->Some_0.owner == owner,
                        forall|p: int|
                            0 <= p < victims@.len() ==> victim_entry(origv, #[trigger] victims@[p]),
                        forall|a: int, b: int|
                            #![trigger stab_pair(origv, a, b)]
                            0 <= a < i && 0 <= b < n && stab_pair(origv, a, b) ==> victim_recorded(
                                origv,
                                victims@,
                                b,
                            ),
                        forall|b: int|
                            0 <= b < j && stab_pair(origv, i as int, b) ==> victim_recorded(
                                origv,
                                victims@,
                                b,
                            ),
                    decreases n - j,
                {
                    let mut pushed = false;
                    let ghost pre = victims@;
                    let is_player = ecs.ents[j].player_info.is_some()
                        && ecs.ents[j].location.is_some();
                    if is_player {
                        let pid = ecs.ents[j].id;
                        let ploc = match ecs.ents[j].location {
                            Option::Some(l) => l,
                            Option::None => Location { x: 0, y: 0 },
                        };
                        if pid != owner {
                            if within_pickup_distance(&item_loc, &ploc) {
                                proof {
                                    assert(stab_pair(origv, i as int, j as int));
                                    assert(is_victim(origv, j as int));
                                }
                                victims.push((pid, ploc));
                                pushed = true;
                            }
                        }
                    }
                    proof {
                        if pushed {
                            assert(victims@ == pre.push((
                                origv[j as int].id,
                                origv[j as int].location->Some_0,
                            )));
                            assert forall|p: int|
                                0 <= p < victims@.len() implies victim_entry(
                                origv,
                                #[trigger] victims@[p],
                            ) by {
                                if p < pre.len() {
                                    assert(victims@[p] == pre[p]);
                                } else {
                                    assert(victims@[p].0 == origv[j as int].id);
                                    assert(victim_entry(origv, victims@[p]));
                                }
                            }
                            assert forall|a: int, b: int|
                                #![trigger stab_pair(origv, a, b)]
                                0 <= a < i && 0 <= b < n && stab_pair(origv, a, b) implies
                                victim_recorded(origv, victims@, b) by {
                                lemma_recorded_push(
                                    origv,
                                    pre,
                                    (origv[j as int].id, origv[j as int].location->Some_0),
                                    b,
                                );
                            }
                            assert forall|b: int|
                                0 <= b < j as int + 1 && stab_pair(origv, i as int, b) implies
                                victim_recorded(origv, victims@, b) by {
                                if b < j as int {
                                    lemma_recorded_push(
                                        origv,
                                        pre,
                                        (origv[j as int].id, origv[j as int].location->Some_0),
                                        b,
                                    );
                                } else {
                                    assert(victims@[victims@.len() - 1].0 == origv[b].id);
                                }
                            }
                        } else {
                            assert(!stab_pair(origv, i as int, j as int));
                        }
                    }
                    j = j + 1;
                }
            } else {
                proof {
                    assert forall|b: int|
                        0 <= b < n && stab_pair(origv, i as int, b) implies victim_recorded(
                        origv,
                        victims@,
                        b,
                    ) by {
                        assert(!is_stab_item(origv[i as int]));
                    }
                }
            }
            i = i + 1;
        }

        // queue the cascades: everything each victim carries, then
        // the victim itself
        let ghost pend0 = ecs.pending@;
        let ghost vseq = victims@;
        let mut p: usize = 0;
        while p < victims.len()
            invariant
                old(ecs).wf(),
                origv == old(ecs)@,
                ecs.ents == old(ecs).ents,
                ecs.next_id == old(ecs).next_id,
                ecs.next_marker == old(ecs).next_marker,
                pend0 == old(ecs).pending@,
                vseq == victims@,
                n == origv.len(),
                p <= vseq.len(),
                forall|q: int| 0 <= q < vseq.len() ==> victim_entry(origv, #[trigger] vseq[q]),
                forall|a: int, b: int|
                    #![trigger stab_pair(origv, a, b)]
                    0 <= a < n && 0 <= b < n && stab_pair(origv, a, b) ==> victim_recorded(
                        origv,
                        vseq,
                        b,
                    ),
                forall|id: u64|
                    #[trigger] ecs.pending@.contains(id) <==> stab_queued(
                        origv,
                        vseq,
                        pend0,
                        p as int,
                        id,
                    ),
            decreases vseq.len() - p,
        {
            let ghost pend_before = ecs.pending@;
            let vid = victims[p].0;
            let mut k: usize = 0;
            while k < n
                invariant
                    origv == old(ecs)@,
                    ecs.ents == old(ecs).ents,
                    ecs.next_id == old(ecs).next_id,
                    ecs.next_marker == old(ecs).next_marker,
                    vseq == victims@,
                    n == origv.len(),
                    p < vseq.len(),
                    vid == vseq[p as int].0,
                    k <= n,
                    forall|id: u64|
                        #[trigger] ecs.pending@.contains(id) <==> (pend_before.contains(id)
                            || exists|kk: int|
                            0 <= kk < k && (#[trigger] origv[kk]).id == id && carried_with_owner(
                                origv[kk],
                                vid,
                            )),
                decreases n - k,
            {
                let mut deleted_here = false;
                let ghost prepend = ecs.pending@;
                let carried_owner = match ecs.ents[k].carried_by {
                    Option::Some(c) => Option::Some(c.owner),
                    Option::None => Option::None,
                };
                if let Option::Some(co) = carried_owner {
                    if co == vid {
                        let kid = ecs.ents[k].id;
                        ecs.delete_entity(kid);
                        deleted_here = true;
                        proof {
                            assert(origv[k as int].id == kid);
                            assert(carried_with_owner(origv[k as int], vid));
                            assert forall|id: u64|
                                #[trigger] ecs.pending@.contains(id) <==> (pend_before.contains(
                                id,
                            ) || exists|kk: int|
                                0 <= kk < k as int + 1 && (#[trigger] origv[kk]).id == id
                                    && carried_with_owner(origv[kk], vid)) by {
                                lemma_push_contains(prepend, kid, id);
                            }
                        }
                    }
                }
                proof {
                    if !deleted_here {
                        assert forall|id: u64|
                            #[trigger] ecs.pending@.contains(id) <==> (pend_before.contains(id)
                                || exists|kk: int|
                                0 <= kk < k as int + 1 && (#[trigger] origv[kk]).id == id
                                    && carried_with_owner(origv[kk], vid)) by {
                            if exists|kk: int|
                                0 <= kk < k as int + 1 && (#[trigger] origv[kk]).id == id
                                    && carried_with_owner(origv[kk], vid) {
                                let kk = choose|kk: int|
                                    0 <= kk < k as int + 1 && (#[trigger] origv[kk]).id == id
                                        && carried_with_owner(origv[kk], vid);
                                assert(kk != k as int);
                            }
                        }
                    }
                }
                k = k + 1;
            }
            let vid2 = victims[p].0;
            let ghost prepend2 = ecs.pending@;
            ecs.delete_entity(vid2);
            proof {
                assert forall|id: u64|
                    #[trigger] ecs.pending@.contains(id) <==> stab_queued(
                        origv,
                        vseq,
                        pend0,
                        p as int + 1,
                        id,
                    ) by {
                    lemma_push_contains(prepend2, vid, id);
                    if ecs.pending@.contains(id) {
                        if prepend2.contains(id) {
                            if pend_before.contains(id) {
                                assert(stab_queued(origv, vseq, pend0, p as int, id));
                                if !pend0.contains(id) {
                                    let q = choose|q: int|
                                        0 <= q < p as int && ((#[trigger] vseq[q]).0 == id
                                            || carried_of(origv, id, vseq[q].0));
                                    assert(stab_queued(origv, vseq, pend0, p as int + 1, id));
                                }
                            } else {
                                let kk = choose|kk: int|
                                    0 <= kk < n && (#[trigger] origv[kk]).id == id
                                        && carried_with_owner(origv[kk], vid);
                                assert(carried_of(origv, id, vseq[p as int].0));
                                assert(stab_queued(origv, vseq, pend0, p as int + 1, id));
                            }
                        } else {
                            assert(id == vid);
                            assert(vseq[p as int].0 == id);
                            assert(stab_queued(origv, vseq, pend0, p as int + 1, id));
                        }
                    }
                    if stab_queued(origv, vseq, pend0, p as int + 1, id) {
                        if pend0.contains(id) {
                            assert(pend_before.contains(id));
                            assert(prepend2.contains(id));
                        } else {
                            let q = choose|q: int|
                                0 <= q < p as int + 1 && ((#[trigger] vseq[q]).0 == id
                                    || carried_of(origv, id, vseq[q].0));
                            if q < p as int {
                                assert(stab_queued(origv, vseq, pend0, p as int, id));
                                assert(pend_before.contains(id));
                                assert(prepend2.contains(id));
                            } else {
                                if vseq[q].0 == id {
                                    assert(ecs.pending@.contains(id));
                                } else {
                                    let kk = choose|kk: int|
                                        0 <= kk < origv.len() && (#[trigger] origv[kk]).id == id
                                            && carried_with_owner(origv[kk], vseq[q].0);
                                    assert(prepend2.contains(id));
                                }
                            }
                        }
                    }
                }
            }
            p = p + 1;
        }

        proof {
            // the queue now holds exactly the victims and their cargo
            assert forall|id: u64|
                #[trigger] ecs.pending@.contains(id) <==> (pend0.contains(id) || victim_id(
                    origv,
                    id,
                ) || carried_by_victim_id(origv, id)) by {
                if ecs.pending@.contains(id) {
                    assert(stab_queued(origv, vseq, pend0, vseq.len() as int, id));
                    if !pend0.contains(id) {
                        let q = choose|q: int|
                            0 <= q < vseq.len() && ((#[trigger] vseq[q]).0 == id || carried_of(
                                origv,
                                id,
                                vseq[q].0,
                            ));
                        assert(victim_entry(origv, vseq[q]));
                        let j = choose|j: int|
                            0 <= j < origv.len() && (#[trigger] origv[j]).id == vseq[q].0
                                && is_victim(origv, j) && origv[j].location == Option::Some(
                                vseq[q].1,
                            );
                        if vseq[q].0 == id {
                            assert(victim_id(origv, id));
                        } else {
                            let kk = choose|kk: int|
                                0 <= kk < origv.len() && (#[trigger] origv[kk]).id == id
                                    && carried_with_owner(origv[kk], vseq[q].0);
                            assert(victim_id(origv, vseq[q].0));
                            assert(carried_by_victim_id(origv, id));
                        }
                    }
                }
                if victim_id(origv, id) {
                    let j = choose|j: int|
                        0 <= j < origv.len() && (#[trigger] origv[j]).id == id && is_victim(
                            origv,
                            j,
                        );
                    let a = choose|a: int| stab_pair(origv, a, j);
                    assert(victim_recorded(origv, vseq, j));
                    let q = choose|q: int| 0 <= q < vseq.len() && (#[trigger] vseq[q]).0 == id;
                    assert(stab_queued(origv, vseq, pend0, vseq.len() as int, id));
                }
                if carried_by_victim_id(origv, id) {
                    let kk = choose|kk: int|
                        0 <= kk < origv.len() && (#[trigger] origv[kk]).id == id
                            && (origv[kk].carried_by matches Option::Some(c) && victim_id(
                            origv,
                            c.owner,
                        ));
                    let c = origv[kk].carried_by->Some_0;
                    let j = choose|j: int|
                        0 <= j < origv.len() && (#[trigger] origv[j]).id == c.owner && is_victim(
                            origv,
                            j,
                        );
                    let a = choose|a: int| stab_pair(origv, a, j);
                    assert(victim_recorded(origv, vseq, j));
                    let q = choose|q: int|
                        0 <= q < vseq.len() && (#[trigger] vseq[q]).0 == c.owner;
                    assert(carried_with_owner(origv[kk], vseq[q].0));
                    assert(carried_of(origv, id, vseq[q].0));
                    assert(stab_queued(origv, vseq, pend0, vseq.len() as int, id));
                }
                if pend0.contains(id) {
                    assert(stab_queued(origv, vseq, pend0, vseq.len() as int, id));
                }
            }
        }

        // spawn the splatters last, one per stabbing
        let ghost pend_final = ecs.pending@;
        let ghost len0 = ecs@.len();
        let mut q: usize = 0;
        while q < victims.len()
            invariant
                origv == old(ecs)@,
                len0 == origv.len(),
                ecs.wf(),
                ecs.pending@ == pend_final,
                ecs.next_id >= old(ecs).next_id,
                ecs.next_marker >= old(ecs).next_marker,
                vseq == victims@,
                q <= vseq.len(),
                ecs@.len() >= len0,
                forall|j: int| 0 <= j < len0 ==> ecs@[j] == #[trigger] origv[j],
                forall|qq: int| 0 <= qq < vseq.len() ==> victim_entry(origv, #[trigger] vseq[qq]),
                forall|k: int|
                    len0 <= k < ecs@.len() ==> splatter_from(origv, #[trigger] ecs@[k]),
                (ecs.next_id < u64::MAX && ecs.next_marker < u64::MAX) ==> (forall|qq: int|
                    0 <= qq < q ==> exists|k: int|
                        len0 <= k < ecs@.len() && splatter_rec(
                            #[trigger] ecs@[k],
                            (#[trigger] vseq[qq]).1,
                        )),
            decreases vseq.len() - q,
        {
            let ghost prevv = ecs@;
            let vloc = victims[q].1;
            if ecs.next_id < u64::MAX && ecs.next_marker < u64::MAX {
                let mut rec = EntityRecord::empty();
                rec.location = Option::Some(vloc);
                rec.renderable = Option::Some(Renderable { render_order: 5 });
                rec.graphic_renderable = Option::Some(
                    GraphicRenderable {
                        image_name: blood_splatter_name(),
                        offset_x: 0,
                        offset_y: 0,
                    },
                );
                rec.disappearing = Option::Some(Disappearing { total_ticks: 100, ticks_left: 100 });
                proof {
                    assert(victim_entry(origv, vseq[q as int]));
                    let w = choose|j: int|
                        0 <= j < origv.len() && (#[trigger] origv[j]).id == vseq[q as int].0
                            && is_victim(origv, j) && origv[j].location == Option::Some(
                            vseq[q as int].1,
                        );
                    assert(rec_wf(origv[w]));
                    assert(rec_wf(rec@));
                }
                let _ = ecs.create_from(rec);
                proof {
                    let w = choose|j: int|
                        0 <= j < origv.len() && (#[trigger] origv[j]).id == vseq[q as int].0
                            && is_victim(origv, j) && origv[j].location == Option::Some(
                            vseq[q as int].1,
                        );
                    assert(splatter_rec(ecs@[ecs@.len() - 1], origv[w].location->Some_0));
                    assert(splatter_from(origv, ecs@[ecs@.len() - 1]));
                    assert(ecs@[ecs@.len() - 1] == ecs@.last());
                    assert(splatter_rec(ecs@[ecs@.len() - 1], vseq[q as int].1));
                    if ecs.next_id < u64::MAX && ecs.next_marker < u64::MAX {
                        assert forall|qq: int|
                            0 <= qq < q as int + 1 implies exists|k: int|
                                len0 <= k < ecs@.len() && splatter_rec(
                                    #[trigger] ecs@[k],
                                    (#[trigger] vseq[qq]).1,
                                ) by {
                            if qq < q as int {
                                let k0 = choose|k0: int|
                                    len0 <= k0 < prevv.len() && splatter_rec(
                                        #[trigger] prevv[k0],
                                        vseq[qq].1,
                                    );
                                assert(ecs@[k0] == prevv[k0]);
                            } else {
                                assert(splatter_rec(ecs@[ecs@.len() - 1], vseq[qq].1));
                            }
                        }
                    }
                }
            }
            q = q + 1;
        }
        proof {
            if carries_ok(origv) {
                lemma_stab_carries_ok(origv, ecs@);
            }
            if ecs.next_id < u64::MAX && ecs.next_marker < u64::MAX {
                assert forall|j: int|
                    0 <= j < origv.len() && is_victim(origv, j) implies exists|k: int|
                        origv.len() <= k < ecs@.len() && splatter_rec(
                            #[trigger] ecs@[k],
                            origv[j].location->Some_0,
                        ) by {
                    let a = choose|a: int| stab_pair(origv, a, j);
                    assert(victim_recorded(origv, vseq, j));
                    let qx = choose|qx: int|
                        0 <= qx < vseq.len() && (#[trigger] vseq[qx]).0 == origv[j].id;
                    assert(victim_entry(origv, vseq[qx]));
                    let jj = choose|jj: int|
                        0 <= jj < origv.len() && (#[trigger] origv[jj]).id == vseq[qx].0
                            && is_victim(origv, jj) && origv[jj].location == Option::Some(
                            vseq[qx].1,
                        );
                    if jj != j {
                        assert(origv[jj].id == origv[j].id);
                    }
                    assert(origv[j].location == Option::Some(vseq[qx].1));
                    let k = choose|k: int|
                        len0 <= k < ecs@.len() && splatter_rec(#[trigger] ecs@[k], vseq[qx].1);
                    assert(splatter_rec(ecs@[k], origv[j].location->Some_0));
                }
            }
        }
    }
}

/// The image name of a blood splatter.
fn blood_splatter_name() -> (r: String)
    ensures
        r@ == "blood_splatter"@,
{
    let s = String::from_str("blood_splatter");
    s
}

/// Appending ownerless records cannot introduce a dangling carry
/// relation.
pub proof fn lemma_stab_carries_ok(s1: Seq<RecV>, s2: Seq<RecV>)
    requires
        s2.len() >= s1.len(),
        forall|j: int| 0 <= j < s1.len() ==> s2[j] == #[trigger] s1[j],
        forall|k: int|
            s1.len() <= k < s2.len() ==> (#[trigger] s2[k]).carried_by is None && s2[k].player_info
                is None,
        carries_ok(s1),
    ensures
        carries_ok(s2),
{
    assert forall|i: int|
        0 <= i < s2.len() implies ((#[trigger] s2[i]).carried_by matches Option::Some(c)
        ==> crate::world::has_id(s2, c.owner) && crate::world::rec_of(s2, c.owner).player_info
        is Some) by {
        if s2[i].carried_by is Some {
            let c = s2[i].carried_by->Some_0;
            if i >= s1.len() {
                assert(s2[i].carried_by is None);
            }
            assert(s2[i] == s1[i]);
            assert(s1[i].carried_by == Option::Some(c));
            assert(crate::world::has_id(s1, c.owner));
            assert(crate::world::rec_of(s1, c.owner).player_info is Some);
            crate::world::lemma_idx_of(s1, c.owner);
            let k1 = crate::world::idx_of(s1, c.owner);
            assert(s1[k1].id == c.owner);
            assert(s2[k1] == s1[k1]);
            assert(s2[k1].id == c.owner);
            assert(crate::world::has_id(s2, c.owner));
            lemma_idx_of_prefix(s1, s2, c.owner);
            crate::world::lemma_idx_of(s2, c.owner);
            assert(crate::world::rec_of(s2, c.owner).player_info is Some);
        }
    }
}

/// Looking an id up in an extended arena finds the same record when
/// the id lives in the prefix.
pub proof fn lemma_idx_of_prefix(s1: Seq<RecV>, s2: Seq<RecV>, id: u64)
    requires
        s2.len() >= s1.len(),
        forall|j: int| 0 <= j < s1.len() ==> s2[j] == #[trigger] s1[j],
        crate::world::has_id(s1, id),
    ensures
        crate::world::idx_of(s2, id) == crate::world::idx_of(s1, id),
    decreases s1.len(),
{
    crate::world::lemma_idx_of(s1, id);
    crate::world::lemma_idx_of(s2, id);
    let k1 = crate::world::idx_of(s1, id);
    assert(s2[k1].id == id);
    let k2 = crate::world::idx_of(s2, id);
    if k2 < k1 {
        assert(s1[k2].id != id);
        assert(s2[k2] == s1[k2]);
    }
    if k2 > k1 {
        assert(s2[k1].id != id);
    }
}

} // verus!
