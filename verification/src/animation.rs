//! The animation system, advancing cyclic image frames, and the
//! decay system, counting entities down toward deletion.
use vstd::prelude::*;

use crate::components::{AnimV, Disappearing, GraphicRenderable, GraphicV};
use crate::world::{has_id, idx_of, ids_unique, names_contain, rec_of, rec_wf, RecV, World};

verus! {

/// Index of the first occurrence of `name` in the image list, or the
/// length when it does not occur.
pub open spec fn first_name_index(names: Seq<Seq<char>>, name: Seq<char>) -> int
    decreases names.len(),
{
    if names.len() == 0 {
        0
    } else if names[0] == name {
        0
    } else {
        1 + first_name_index(names.drop_first(), name)
    }
}

/// `first_name_index` finds the name exactly when the list contains
/// it.
pub proof fn lemma_first_name_index(names: Seq<Seq<char>>, name: Seq<char>)
    ensures
        names_contain(names, name) ==> 0 <= first_name_index(names, name) < names.len()
            && names[first_name_index(names, name)] == name,
        !names_contain(names, name) ==> first_name_index(names, name) == names.len(),
        forall|j: int| 0 <= j < first_name_index(names, name) ==> #[trigger] names[j] != name,
    decreases names.len(),
{
    if names.len() > 0 && names[0] != name {
        lemma_first_name_index(names.drop_first(), name);
        assert forall|i: int| 0 <= i < names.len() && #[trigger] names[i] == name implies
            names_contain(names.drop_first(), name) || i == 0 by {
            if i > 0 {
                assert(names.drop_first()[i - 1] == name);
            }
        }
        assert forall|j: int| 0 <= j < first_name_index(names, name) implies #[trigger] names[j]
            != name by {
            if j > 0 {
                assert(names.drop_first()[j - 1] != name);
                assert(names[j] == names.drop_first()[j - 1]);
            }
        }
    }
}

/// The animation step applied to one record: while the counter is
/// still running it advances by one; once it reaches the interval it
/// resets and the rendered image moves to the next name in the list,
/// wrapping around at the end.
pub open spec fn spec_anim_rec(r: RecV) -> RecV {
    match (r.graphic_renderable, r.graphic_animatable) {
        (Option::Some(g), Option::Some(a)) => {
            if a.ticks != a.tick_interval {
                RecV {
                    graphic_animatable: Option::Some(AnimV { ticks: (a.ticks + 1) as i16, ..a }),
                    ..r
                }
            } else {
                let idx = first_name_index(a.image_names, g.image_name);
                let next = if idx + 1 >= a.image_names.len() {
                    0
                } else {
                    idx + 1
                };
                RecV {
                    graphic_animatable: Option::Some(AnimV { ticks: 0, ..a }),
                    graphic_renderable: Option::Some(
                        GraphicV { image_name: a.image_names[next], ..g },
                    ),
                    ..r
                }
            }
        },
        _ => r,
    }
}

/// The system that advances every animation one tick.
pub struct AnimationSystem {
}

impl AnimationSystem {
    /// Advance the frame counter of every animated entity, swapping
    /// in the next image when the counter completes.
    pub fn run(ecs: &mut World)
        requires
            old(ecs).wf(),
        ensures
            final(ecs).wf(),
            final(ecs)@ == old(ecs)@.map_values(|r: RecV| spec_anim_rec(r)),
            final(ecs).pending == old(ecs).pending,
            final(ecs).next_id == old(ecs).next_id,
            final(ecs).next_marker == old(ecs).next_marker,
    {
        let ghost origv = ecs@;
        let n = ecs.ents.len();
        let mut i: usize = 0;
        while i < n
            invariant
                old(ecs).wf(),
                origv == old(ecs)@,
                n == ecs.ents@.len(),
                n == origv.len(),
                i <= n,
                ecs.pending == old(ecs).pending,
                ecs.next_id == old(ecs).next_id,
                ecs.next_marker == old(ecs).next_marker,
                forall|j: int| 0 <= j < i ==> ecs@[j] == spec_anim_rec(#[trigger] origv[j]),
                forall|j: int| i <= j < n ==> ecs@[j] == #[trigger] origv[j],
            decreases n - i,
        {
            proof {
                assert(rec_wf(origv[i as int]));
            }
            let has_both = ecs.ents[i].graphic_renderable.is_some()
                && ecs.ents[i].graphic_animatable.is_some();
            if has_both {
                let ghost g = origv[i as int].graphic_renderable->Some_0;
                let ghost a = origv[i as int].graphic_animatable->Some_0;
                let ticks = match &ecs.ents[i].graphic_animatable {
                    Option::Some(an) => an.ticks,
                    Option::None => 0,
                };
                let interval = match &ecs.ents[i].graphic_animatable {
                    Option::Some(an) => an.tick_interval,
                    Option::None => 0,
                };
                if ticks != interval {
                    let r = &mut ecs.ents[i];
                    match &mut r.graphic_animatable {
                        Option::Some(an) => {
                            an.ticks = an.ticks + 1;
                        },
                        Option::None => {},
                    }
                    proof {
                        assert(ecs@[i as int] =~= spec_anim_rec(origv[i as int]));
                    }
                } else {
                    // find the currently rendered image in the list
                    let name_count = match &ecs.ents[i].graphic_animatable {
                        Option::Some(an) => an.image_names.len(),
                        Option::None => 0,
                    };
                    proof {
                        lemma_first_name_index(a.image_names, g.image_name);
                    }
                    let mut idx: usize = 0;
                    let mut found: usize = name_count;
                    while idx < name_count
                        invariant
                            i < n,
                            n == ecs.ents@.len(),
                            origv == old(ecs)@,
                            forall|j: int| i <= j < n ==> ecs@[j] == #[trigger] origv[j],
                            origv[i as int].graphic_renderable == Option::Some(g),
                            origv[i as int].graphic_animatable == Option::Some(a),
                            name_count == a.image_names.len(),
                            idx <= name_count,
                            found == name_count || (found < name_count && found as int
                                == first_name_index(a.image_names, g.image_name)),
                            found == name_count ==> forall|j: int|
                                0 <= j < idx ==> #[trigger] a.image_names[j] != g.image_name,
                        decreases name_count - idx,
                    {
                        if found == name_count {
                            let same = match (
                                &ecs.ents[i].graphic_animatable,
                                &ecs.ents[i].graphic_renderable,
                            ) {
                                (Option::Some(an), Option::Some(gr)) => {
                                    let eq = an.image_names[idx] == gr.image_name;
                                    eq
                                },
                                _ => false,
                            };
                            if same {
                                found = idx;
                                proof {
                                    lemma_first_name_index(a.image_names, g.image_name);
                                    assert(a.image_names[idx as int] == g.image_name);
                                    if first_name_index(a.image_names, g.image_name) < idx {
                                        assert(a.image_names[first_name_index(
                                            a.image_names,
                                            g.image_name,
                                        )] != g.image_name);
                                    }
                                }
                            }
                        }
                        idx = idx + 1;
                    }
                    proof {
                        assert(names_contain(a.image_names, g.image_name));
                        assert(found < name_count);
                    }
                    let mut next = found + 1;
                    if next >= name_count {
                        next = 0;
                    }
                    let new_name = match &ecs.ents[i].graphic_animatable {
                        Option::Some(an) => crate::world::clone_string(&an.image_names[next]),
                        Option::None => String::new(),
                    };
                    let r = &mut ecs.ents[i];
                    match &mut r.graphic_animatable {
                        Option::Some(an) => {
                            an.ticks = 0;
                        },
                        Option::None => {},
                    }
                    match &mut r.graphic_renderable {
                        Option::Some(gr) => {
                            gr.image_name = new_name;
                        },
                        Option::None => {},
                    }
                    proof {
                        assert(ecs@[i as int] =~= spec_anim_rec(origv[i as int]));
                    }
                }
            }
            i = i + 1;
        }
        proof {
            assert(ecs@ =~= origv.map_values(|r: RecV| spec_anim_rec(r)));
            assert forall|j: int| 0 <= j < n implies rec_wf(#[trigger] ecs@[j]) by {
                assert(rec_wf(origv[j]));
                let r = origv[j];
                if r.graphic_renderable is Some && r.graphic_animatable is Some {
                    let a = r.graphic_animatable->Some_0;
                    let g = r.graphic_renderable->Some_0;
                    if a.ticks == a.tick_interval {
                        lemma_first_name_index(a.image_names, g.image_name);
                        let idx = first_name_index(a.image_names, g.image_name);
                        let next = if idx + 1 >= a.image_names.len() {
                            0
                        } else {
                            idx + 1
                        };
                        assert(names_contain(a.image_names, a.image_names[next]));
                    }
                }
            }
        }
    }
}

/// Whether this record's countdown expires this tick and queues the
/// entity for deletion: it is counting, is not waiting to be picked
/// up, and this decrement takes it to zero.
pub open spec fn spec_decay_dies(r: RecV) -> bool {
    &&& r.disappearing matches Option::Some(d) && d.ticks_left == 1
    &&& !r.wants_to_be_picked_up
}

/// The decay step applied to one record: a counting entity that is
/// not waiting to be picked up loses one tick.
pub open spec fn spec_decay_rec(r: RecV) -> RecV {
    match r.disappearing {
        Option::Some(d) => {
            if !r.wants_to_be_picked_up && d.ticks_left > 0 {
                RecV {
                    disappearing: Option::Some(
                        Disappearing {
                            total_ticks: d.total_ticks,
                            ticks_left: (d.ticks_left - 1) as u32,
                        },
                    ),
                    ..r
                }
            } else {
                r
            }
        },
        Option::None => r,
    }
}

/// Ids of the records whose countdown expires this tick, in arena
/// order.
pub open spec fn spec_decay_deaths(s: Seq<RecV>) -> Seq<u64>
    decreases s.len(),
{
    if s.len() == 0 {
        Seq::empty()
    } else {
        let rest = spec_decay_deaths(s.drop_last());
        if spec_decay_dies(s.last()) {
            rest.push(s.last().id)
        } else {
            rest
        }
    }
}

/// The system that counts disappearing entities down and queues the
/// expired ones for deletion.
pub struct DisappearingSystem {
}

impl DisappearingSystem {
    /// Decrement every countdown not shielded by a pick-up marker;
    /// entities reaching zero are queued for deletion and vanish at
    /// the next maintain.
    pub fn run(ecs: &mut World)
        requires
            old(ecs).wf(),
        ensures
            final(ecs).wf(),
            final(ecs)@ == old(ecs)@.map_values(|r: RecV| spec_decay_rec(r)),
            final(ecs).pending@ == old(ecs).pending@ + spec_decay_deaths(old(ecs)@),
            final(ecs).next_id == old(ecs).next_id,
            final(ecs).next_marker == old(ecs).next_marker,
    {
        let ghost origv = ecs@;
        let ghost pend0 = ecs.pending@;
        let n = ecs.ents.len();
        let mut i: usize = 0;
        proof {
            assert(origv.subrange(0, 0) =~= Seq::<RecV>::empty());
            assert(ecs.pending@ =~= pend0 + spec_decay_deaths(origv.subrange(0, 0)));
        }
        while i < n
            invariant
                old(ecs).wf(),
                origv == old(ecs)@,
                pend0 == old(ecs).pending@,
                n == ecs.ents@.len(),
                n == origv.len(),
                i <= n,
                ecs.pending@ == pend0 + spec_decay_deaths(origv.subrange(0, i as int)),
                ecs.next_id == old(ecs).next_id,
                ecs.next_marker == old(ecs).next_marker,
                forall|j: int| 0 <= j < i ==> ecs@[j] == spec_decay_rec(#[trigger] origv[j]),
                forall|j: int| i <= j < n ==> ecs@[j] == #[trigger] origv[j],
            decreases n - i,
        {
            proof {
                assert(rec_wf(origv[i as int]));
                let t = origv.subrange(0, i as int + 1);
                assert(t.drop_last() =~= origv.subrange(0, i as int));
                assert(t.last() == origv[i as int]);
            }
            let counting = ecs.ents[i].disappearing.is_some()
                && ecs.ents[i].wants_to_be_picked_up.is_none();
            if counting {
                let id = ecs.ents[i].id;
                let (total, left) = match &ecs.ents[i].disappearing {
                    Option::Some(d) => (d.total_ticks, d.ticks_left),
                    Option::None => (0, 0),
                };
                if left > 0 {
                    let r = &mut ecs.ents[i];
                    r.disappearing = Option::Some(
                        Disappearing { total_ticks: total, ticks_left: left - 1 },
                    );
                    proof {
                        assert(ecs@[i as int] =~= spec_decay_rec(origv[i as int]));
                    }
                    if left == 1 {
                        ecs.delete_entity(id);
                        proof {
                            assert(ecs.pending@ =~= pend0 + spec_decay_deaths(
                                origv.subrange(0, i as int + 1),
                            ));
                        }
                    } else {
                        proof {
                            assert(ecs.pending@ =~= pend0 + spec_decay_deaths(
                                origv.subrange(0, i as int + 1),
                            ));
                        }
                    }
                } else {
                    proof {
                        assert(ecs.pending@ =~= pend0 + spec_decay_deaths(
                            origv.subrange(0, i as int + 1),
                        ));
                    }
                }
            } else {
                proof {
                    assert(ecs.pending@ =~= pend0 + spec_decay_deaths(
                        origv.subrange(0, i as int + 1),
                    ));
                }
            }
            i = i + 1;
        }
        proof {
            assert(origv.subrange(0, n as int) =~= origv);
            assert(ecs@ =~= origv.map_values(|r: RecV| spec_decay_rec(r)));
            assert forall|j: int| 0 <= j < n implies rec_wf(#[trigger] ecs@[j]) by {
                assert(rec_wf(origv[j]));
            }
        }
    }
}

} // verus!

verus! {

/// The expired records' ids are exactly the decay deaths.
pub proof fn lemma_decay_deaths_contains(s: Seq<RecV>, id: u64)
    ensures
        spec_decay_deaths(s).contains(id) <==> exists|i: int|
            0 <= i < s.len() && (#[trigger] s[i]).id == id && spec_decay_dies(s[i]),
    decreases s.len(),
{
    if s.len() > 0 {
        lemma_decay_deaths_contains(s.drop_last(), id);
        let rest = spec_decay_deaths(s.drop_last());
        if spec_decay_deaths(s).contains(id) {
            let w = choose|w: int|
                0 <= w < spec_decay_deaths(s).len() && spec_decay_deaths(s)[w] == id;
            if spec_decay_dies(s.last()) {
                if w < rest.len() {
                    assert(rest.contains(id));
                    let i = choose|i: int|
                        0 <= i < s.drop_last().len() && (#[trigger] s.drop_last()[i]).id == id
                            && spec_decay_dies(s.drop_last()[i]);
                    assert(s[i].id == id && spec_decay_dies(s[i]));
                } else {
                    assert(id == s.last().id);
                    assert(s[s.len() - 1].id == id && spec_decay_dies(s[s.len() - 1]));
                }
            } else {
                assert(rest.contains(id));
                let i = choose|i: int|
                    0 <= i < s.drop_last().len() && (#[trigger] s.drop_last()[i]).id == id
                        && spec_decay_dies(s.drop_last()[i]);
                assert(s[i].id == id && spec_decay_dies(s[i]));
            }
        }
        if exists|i: int|
            0 <= i < s.len() && (#[trigger] s[i]).id == id && spec_decay_dies(s[i]) {
            let i = choose|i: int|
                0 <= i < s.len() && (#[trigger] s[i]).id == id && spec_decay_dies(s[i]);
            if i < s.len() - 1 {
                assert(s.drop_last()[i].id == id && spec_decay_dies(s.drop_last()[i]));
                assert(rest.contains(id));
                let w = choose|w: int| 0 <= w < rest.len() && rest[w] == id;
                if spec_decay_dies(s.last()) {
                    assert(spec_decay_deaths(s)[w] == id);
                } else {
                    assert(spec_decay_deaths(s)[w] == id);
                }
            } else {
                assert(spec_decay_dies(s.last()));
                assert(spec_decay_deaths(s).last() == id);
            }
        }
    }
}

/// Law: an entity whose countdown reaches zero this tick, and which
/// is not waiting to be picked up, is gone once the queued deletions
/// are applied; one that is still waiting to be picked up survives
/// with its countdown untouched.
pub proof fn lemma_decay_then_maintain(s: Seq<RecV>, p0: Seq<u64>, e: u64)
    requires
        ids_unique(s),
        has_id(s, e),
        !p0.contains(e),
        rec_of(s, e).disappearing is Some,
    ensures
        (rec_of(s, e).disappearing->Some_0.ticks_left == 1 && !rec_of(s, e).wants_to_be_picked_up)
            ==> !has_id(
            s.map_values(|r: RecV| spec_decay_rec(r)).filter(
                |r: RecV| !(p0 + spec_decay_deaths(s)).contains(r.id),
            ),
            e,
        ),
        rec_of(s, e).wants_to_be_picked_up ==> has_id(
            s.map_values(|r: RecV| spec_decay_rec(r)).filter(
                |r: RecV| !(p0 + spec_decay_deaths(s)).contains(r.id),
            ),
            e,
        ) && rec_of(
            s.map_values(|r: RecV| spec_decay_rec(r)).filter(
                |r: RecV| !(p0 + spec_decay_deaths(s)).contains(r.id),
            ),
            e,
        ).disappearing == rec_of(s, e).disappearing,
{
    crate::world::lemma_idx_of(s, e);
    let ix = idx_of(s, e);
    let m = s.map_values(|r: RecV| spec_decay_rec(r));
    let pend = p0 + spec_decay_deaths(s);
    let keep = |r: RecV| !pend.contains(r.id);
    let f = m.filter(keep);
    lemma_decay_deaths_contains(s, e);
    if rec_of(s, e).disappearing->Some_0.ticks_left == 1 && !rec_of(s, e).wants_to_be_picked_up {
        assert(spec_decay_dies(s[ix]));
        assert(spec_decay_deaths(s).contains(e));
        let w = choose|w: int|
            0 <= w < spec_decay_deaths(s).len() && spec_decay_deaths(s)[w] == e;
        assert(pend[p0.len() + w] == e);
        assert(pend.contains(e));
        crate::world::lemma_filter_elements(m, keep);
        if has_id(f, e) {
            let k = choose|k: int| 0 <= k < f.len() && (#[trigger] f[k]).id == e;
            let w2 = choose|w2: int| 0 <= w2 < m.len() && m[w2] == f[k];
            assert(keep(f[k]));
            assert(!pend.contains(e));
        }
    }
    if rec_of(s, e).wants_to_be_picked_up {
        assert(!spec_decay_dies(s[ix]));
        // the record survives untouched: it is not queued
        assert(!spec_decay_deaths(s).contains(e));
        assert forall|q: int| 0 <= q < pend.len() implies pend[q] != e by {
            if q < p0.len() {
                assert(p0[q] == e ==> p0.contains(e));
            } else {
                assert(pend[q] == spec_decay_deaths(s)[q - p0.len()]);
                if pend[q] == e {
                    assert(spec_decay_deaths(s).contains(e));
                }
            }
        }
        assert(!pend.contains(e));
        assert(m[ix].id == e);
        assert(m[ix] == spec_decay_rec(s[ix]));
        assert(m[ix].disappearing == s[ix].disappearing);
        assert(keep(m[ix]));
        crate::world::lemma_filter_contains_at(m, keep, ix);
        let k = choose|k: int| 0 <= k < f.len() && f[k] == m[ix];
        assert(f[k].id == e);
        assert(has_id(f, e));
        crate::world::lemma_idx_of(f, e);
        let fx = idx_of(f, e);
        crate::world::lemma_filter_elements(m, keep);
        let w3 = choose|w3: int| 0 <= w3 < m.len() && m[w3] == f[fx];
        assert(m[w3].id == e);
        assert(s[w3].id == e);
        if w3 != ix {
            assert(s[w3].id != s[ix].id || w3 == ix);
        }
        assert(rec_of(f, e) == f[fx]);
        assert(f[fx].disappearing == s[ix].disappearing);
    }
}

} // verus!
