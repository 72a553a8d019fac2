//! The entity-component world store.
//!
//! Entities live in one arena of records, one record per entity, with
//! a dense field per component type; absence of a component is an
//! absent option.  Each record carries two identities: `id`, the
//! process-local handle, and `marker`, the stable identity that
//! survives snapshot encoding and decoding.  Contracts speak about
//! the world through its view: the sequence of record views.
//!
//! Deletions are deferred: they are queued and applied atomically by
//! [`World::maintain`], so systems never observe half-deleted state
//! in the middle of a tick.  Attaching a component to an entity that
//! has already been maintained away is ruled out statically: every
//! mutator requires the entity to be present in the arena.
use vstd::prelude::*;

use crate::components::{
    AnimV, CarriedBy, ChatRenderable, ChatV, CrabAI, Disappearing, FPSTracker, GraphicAnimatable,
    GraphicRenderable, GraphicV, Location, PlayerInfo, Renderable, TextRenderable, TextV,
    WantsToBePickedUp, WantsToMoveTo, WantsToStab,
};

verus! {

/// Coordinates of locations and movement targets stay within this
/// bound, which keeps every distance computation far from overflow.
pub const COORD_BOUND: i32 = 1000000;

/// One entity: its identities and one optional slot per component.
pub struct EntityRecord {
    pub id: u64,
    pub marker: u64,
    pub fps_tracker: Option<FPSTracker>,
    pub location: Option<Location>,
    pub player_info: Option<PlayerInfo>,
    pub renderable: Option<Renderable>,
    pub text_renderable: Option<TextRenderable>,
    pub chat_renderable: Option<ChatRenderable>,
    pub graphic_renderable: Option<GraphicRenderable>,
    pub graphic_animatable: Option<GraphicAnimatable>,
    pub wants_to_move_to: Option<WantsToMoveTo>,
    pub disappearing: Option<Disappearing>,
    pub carried_by: Option<CarriedBy>,
    pub crab_ai: Option<CrabAI>,
    pub wants_to_be_picked_up: Option<WantsToBePickedUp>,
    pub wants_to_stab: Option<WantsToStab>,
}

/// The mathematical view of one entity record.
#[verifier::ext_equal]
pub ghost struct RecV {
    pub id: u64,
    pub marker: u64,
    pub fps_tracker: Option<FPSTracker>,
    pub location: Option<Location>,
    pub player_info: Option<Seq<char>>,
    pub renderable: Option<Renderable>,
    pub text_renderable: Option<TextV>,
    pub chat_renderable: Option<ChatV>,
    pub graphic_renderable: Option<GraphicV>,
    pub graphic_animatable: Option<AnimV>,
    pub wants_to_move_to: Option<WantsToMoveTo>,
    pub disappearing: Option<Disappearing>,
    pub carried_by: Option<CarriedBy>,
    pub crab_ai: Option<CrabAI>,
    pub wants_to_be_picked_up: bool,
    pub wants_to_stab: bool,
}

impl View for EntityRecord {
    type V = RecV;

    open spec fn view(&self) -> RecV {
        RecV {
            id: self.id,
            marker: self.marker,
            fps_tracker: self.fps_tracker,
            location: self.location,
            player_info: match self.player_info {
                Option::Some(p) => Option::Some(p@),
                Option::None => Option::None,
            },
            renderable: self.renderable,
            text_renderable: match self.text_renderable {
                Option::Some(t) => Option::Some(t@),
                Option::None => Option::None,
            },
            chat_renderable: match self.chat_renderable {
                Option::Some(t) => Option::Some(t@),
                Option::None => Option::None,
            },
            graphic_renderable: match self.graphic_renderable {
                Option::Some(t) => Option::Some(t@),
                Option::None => Option::None,
            },
            graphic_animatable: match self.graphic_animatable {
                Option::Some(t) => Option::Some(t@),
                Option::None => Option::None,
            },
            wants_to_move_to: self.wants_to_move_to,
            disappearing: self.disappearing,
            carried_by: self.carried_by,
            crab_ai: self.crab_ai,
            wants_to_be_picked_up: self.wants_to_be_picked_up is Some,
            wants_to_stab: self.wants_to_stab is Some,
        }
    }
}

impl EntityRecord {
    /// A record with no components attached; identities are filled in
    /// by the world when the record is adopted.
    pub fn empty() -> (r: EntityRecord)
        ensures
            r@ == RecV::spec_empty(),
    {
        EntityRecord {
            id: 0,
            marker: 0,
            fps_tracker: Option::None,
            location: Option::None,
            player_info: Option::None,
            renderable: Option::None,
            text_renderable: Option::None,
            chat_renderable: Option::None,
            graphic_renderable: Option::None,
            graphic_animatable: Option::None,
            wants_to_move_to: Option::None,
            disappearing: Option::None,
            carried_by: Option::None,
            crab_ai: Option::None,
            wants_to_be_picked_up: Option::None,
            wants_to_stab: Option::None,
        }
    }
}

impl RecV {
    /// The view of a record with every slot empty.
    pub open spec fn spec_empty() -> RecV {
        RecV {
            id: 0,
            marker: 0,
            fps_tracker: Option::None,
            location: Option::None,
            player_info: Option::None,
            renderable: Option::None,
            text_renderable: Option::None,
            chat_renderable: Option::None,
            graphic_renderable: Option::None,
            graphic_animatable: Option::None,
            wants_to_move_to: Option::None,
            disappearing: Option::None,
            carried_by: Option::None,
            crab_ai: Option::None,
            wants_to_be_picked_up: false,
            wants_to_stab: false,
        }
    }
}

/// A coordinate pair within the world's coordinate bound.
pub open spec fn coords_bounded(x: int, y: int) -> bool {
    -COORD_BOUND <= x <= COORD_BOUND && -COORD_BOUND <= y <= COORD_BOUND
}

/// The image list of an animation names the currently rendered image.
pub open spec fn names_contain(names: Seq<Seq<char>>, name: Seq<char>) -> bool {
    exists|i: int| 0 <= i < names.len() && #[trigger] names[i] == name
}

/// Per-record invariant: bounded coordinates, decay counters within
/// their totals, animation counters within their intervals, an
/// animated image always drawn from its own image list, and players
/// never decaying (so decay can never orphan a carried entity).
pub open spec fn rec_wf(r: RecV) -> bool {
    &&& (r.location matches Option::Some(l) ==> coords_bounded(l.x as int, l.y as int))
    &&& (r.wants_to_move_to matches Option::Some(m) ==> coords_bounded(m.x as int, m.y as int)
        && m.speed >= 0)
    &&& (r.disappearing matches Option::Some(d) ==> d.ticks_left <= d.total_ticks)
    &&& (r.graphic_animatable matches Option::Some(a) ==> 0 <= a.ticks <= a.tick_interval
        && a.image_names.len() > 0)
    &&& (r.graphic_animatable matches Option::Some(a) ==> (r.graphic_renderable matches
    Option::Some(g) ==> names_contain(a.image_names, g.image_name)))
    &&& (r.crab_ai matches Option::Some(c) ==> 0 <= c.ticks <= c.tick_interval && c.walk_speed
        >= 0)
    // players never decay: a decaying owner would leave everything
    // it carries dangling when the countdown removes it outside the
    // cascade paths
    &&& !(r.player_info is Some && r.disappearing is Some)
    &&& !(r.player_info is Some && r.carried_by is Some)
    &&& !(r.player_info is Some && r.wants_to_be_picked_up)
}

/// No two records share an id.
pub open spec fn ids_unique(s: Seq<RecV>) -> bool {
    forall|i: int, j: int|
        0 <= i < j < s.len() ==> (#[trigger] s[i]).id != (#[trigger] s[j]).id
}

/// No two records share a marker.
pub open spec fn markers_unique(s: Seq<RecV>) -> bool {
    forall|i: int, j: int|
        0 <= i < j < s.len() ==> (#[trigger] s[i]).marker != (#[trigger] s[j]).marker
}

/// Some record carries this id.
pub open spec fn has_id(s: Seq<RecV>, id: u64) -> bool {
    exists|i: int| 0 <= i < s.len() && (#[trigger] s[i]).id == id
}

/// Index of the first record carrying `id`, or the length when none
/// does.
pub open spec fn idx_of(s: Seq<RecV>, id: u64) -> int
    decreases s.len(),
{
    if s.len() == 0 {
        0
    } else if s[0].id == id {
        0
    } else {
        1 + idx_of(s.drop_first(), id)
    }
}

/// The record carrying `id`.
pub open spec fn rec_of(s: Seq<RecV>, id: u64) -> RecV {
    s[idx_of(s, id)]
}

/// `idx_of` finds the id it was asked for, within bounds, exactly
/// when some record has it.
pub proof fn lemma_idx_of(s: Seq<RecV>, id: u64)
    ensures
        has_id(s, id) ==> 0 <= idx_of(s, id) < s.len() && s[idx_of(s, id)].id == id,
        !has_id(s, id) ==> idx_of(s, id) == s.len(),
        forall|j: int| 0 <= j < idx_of(s, id) ==> (#[trigger] s[j]).id != id,
    decreases s.len(),
{
    if s.len() > 0 && s[0].id != id {
        lemma_idx_of(s.drop_first(), id);
        assert forall|i: int| 0 <= i < s.len() && (#[trigger] s[i]).id == id implies has_id(
            s.drop_first(),
            id,
        ) || i == 0 by {
            if i > 0 {
                assert(s.drop_first()[i - 1].id == id);
            }
        }
        assert forall|j: int| 0 <= j < idx_of(s, id) implies (#[trigger] s[j]).id != id by {
            if j > 0 {
                assert(s.drop_first()[j - 1].id != id);
                assert(s[j] == s.drop_first()[j - 1]);
            }
        }
    }
}

/// No carry relation dangles: every owner is a live entity bearing
/// player information.
pub open spec fn carries_ok(s: Seq<RecV>) -> bool {
    forall|i: int|
        0 <= i < s.len() ==> ((#[trigger] s[i]).carried_by matches Option::Some(c) ==> has_id(
            s,
            c.owner,
        ) && rec_of(s, c.owner).player_info is Some)
}

/// The deletion queue is closed under the carry relation: when an
/// owner is queued, everything it carries is queued with it.
pub open spec fn pending_closed(s: Seq<RecV>, p: Seq<u64>) -> bool {
    forall|i: int|
        0 <= i < s.len() ==> ((#[trigger] s[i]).carried_by matches Option::Some(c) && p.contains(
            c.owner,
        ) ==> p.contains(s[i].id))
}

/// The authoritative world: the entity arena, the deferred deletion
/// queue, and the two identity allocators.
pub struct World {
    pub ents: Vec<EntityRecord>,
    pub pending: Vec<u64>,
    pub next_id: u64,
    pub next_marker: u64,
}

impl View for World {
    type V = Seq<RecV>;

    open spec fn view(&self) -> Seq<RecV> {
        Seq::new(self.ents@.len(), |i: int| self.ents@[i]@)
    }
}

impl World {
    /// Well-formed world: unique identities below their allocators
    /// and well-formed records.
    pub open spec fn wf(self) -> bool {
        &&& ids_unique(self@)
        &&& markers_unique(self@)
        &&& forall|i: int|
            0 <= i < self@.len() ==> rec_wf(#[trigger] self@[i]) && self@[i].id < self.next_id
                && self@[i].marker < self.next_marker
    }

    /// A fresh, empty world.
    pub fn new() -> (w: World)
        ensures
            w.wf(),
            w@.len() == 0,
            w.pending@.len() == 0,
            w.next_id == 0,
            w.next_marker == 0,
    {
        World { ents: Vec::new(), pending: Vec::new(), next_id: 0, next_marker: 0 }
    }

    /// Adopt a record as a new entity: assign it a fresh id and a
    /// fresh marker and append it to the arena.
    pub fn create_from(&mut self, rec: EntityRecord) -> (id: u64)
        requires
            old(self).wf(),
            old(self).next_id < u64::MAX,
            old(self).next_marker < u64::MAX,
            rec_wf(rec@),
        ensures
            final(self).wf(),
            id == old(self).next_id,
            final(self).next_id == old(self).next_id + 1,
            final(self).next_marker == old(self).next_marker + 1,
            final(self).pending == old(self).pending,
            final(self)@ == old(self)@.push(
                RecV { id, marker: old(self).next_marker, ..rec@ },
            ),
    {
        let id = self.next_id;
        let marker = self.next_marker;
        self.next_id = self.next_id + 1;
        self.next_marker = self.next_marker + 1;
        let adopted = EntityRecord { id, marker, ..rec };
        self.ents.push(adopted);
        proof {
            assert(self@ =~= old(self)@.push(RecV { id, marker: old(self).next_marker, ..rec@ }));
        }
        id
    }

    /// Whether an entity with this id is present in the arena.
    pub fn contains_id(&self, id: u64) -> (r: bool)
        ensures
            r == has_id(self@, id),
    {
        let mut i: usize = 0;
        while i < self.ents.len()
            invariant
                i <= self@.len(),
                self@.len() == self.ents@.len(),
                forall|j: int| 0 <= j < i ==> (#[trigger] self@[j]).id != id,
            decreases self@.len() - i,
        {
            if self.ents[i].id == id {
                proof {
                    assert(self@[i as int].id == id);
                }
                return true;
            }
            i = i + 1;
        }
        false
    }

    /// Index of the entity with this id, if it is present.
    pub fn index_of(&self, id: u64) -> (r: Option<usize>)
        ensures
            match r {
                Option::Some(i) => i < self@.len() && self@[i as int].id == id && i as int
                    == idx_of(self@, id) && has_id(self@, id),
                Option::None => !has_id(self@, id),
            },
    {
        let mut i: usize = 0;
        while i < self.ents.len()
            invariant
                i <= self@.len(),
                self@.len() == self.ents@.len(),
                forall|j: int| 0 <= j < i ==> (#[trigger] self@[j]).id != id,
            decreases self@.len() - i,
        {
            if self.ents[i].id == id {
                proof {
                    lemma_idx_of(self@, id);
                    assert(has_id(self@, id));
                    if idx_of(self@, id) < i {
                        assert(self@[idx_of(self@, id)].id != id);
                    }
                    if idx_of(self@, id) > i {
                        assert(self@[i as int].id != id);
                    }
                }
                return Option::Some(i);
            }
            i = i + 1;
        }
        Option::None
    }

    /// Queue an entity for deletion; the record stays visible until
    /// the next `maintain`.
    pub fn delete_entity(&mut self, id: u64)
        ensures
            final(self).ents == old(self).ents,
            final(self)@ == old(self)@,
            final(self).next_id == old(self).next_id,
            final(self).next_marker == old(self).next_marker,
            final(self).pending@ == old(self).pending@.push(id),
            final(self).wf() == old(self).wf(),
    {
        self.pending.push(id);
    }

    /// Apply all queued deletions atomically and clear the queue.
    pub fn maintain(&mut self)
        requires
            old(self).wf(),
        ensures
            final(self).wf(),
            final(self).next_id == old(self).next_id,
            final(self).next_marker == old(self).next_marker,
            final(self).pending@.len() == 0,
            final(self)@ == old(self)@.filter(
                |r: RecV| !old(self).pending@.contains(r.id),
            ),
    {
        let ghost origv = self@;
        let ghost pend = self.pending@;
        let ghost keep = |r: RecV| !pend.contains(r.id);
        let mut kept: Vec<EntityRecord> = Vec::new();
        let mut i: usize = 0;
        while i < self.ents.len()
            invariant
                i <= origv.len(),
                origv == self@,
                origv.len() == self.ents@.len(),
                pend == self.pending@,
                keep == (|r: RecV| !pend.contains(r.id)),
                Seq::new(kept@.len(), |k: int| kept@[k]@) == origv.subrange(0, i as int).filter(
                    keep,
                ),
            decreases origv.len() - i,
        {
            let mut in_pending = false;
            let mut j: usize = 0;
            while j < self.pending.len()
                invariant
                    i < origv.len(),
                    origv == self@,
                    origv.len() == self.ents@.len(),
                    pend == self.pending@,
                    j <= pend.len(),
                    in_pending == exists|k: int|
                        0 <= k < j && pend[k] == origv[i as int].id,
                decreases pend.len() - j,
            {
                if self.pending[j] == self.ents[i].id {
                    in_pending = true;
                }
                j = j + 1;
            }
            proof {
                reveal(Seq::filter);
                assert(in_pending == pend.contains(origv[i as int].id));
                let t = origv.subrange(0, i as int + 1);
                assert(t.drop_last() =~= origv.subrange(0, i as int));
                assert(t.last() == origv[i as int]);
            }
            if !in_pending {
                let r = clone_record(&self.ents[i]);
                kept.push(r);
                proof {
                    assert(Seq::new(kept@.len(), |k: int| kept@[k]@) =~= origv.subrange(
                        0,
                        i as int + 1,
                    ).filter(keep));
                }
            } else {
                proof {
                    assert(Seq::new(kept@.len(), |k: int| kept@[k]@) =~= origv.subrange(
                        0,
                        i as int + 1,
                    ).filter(keep));
                }
            }
            i = i + 1;
        }
        proof {
            assert(origv.subrange(0, origv.len() as int) =~= origv);
        }
        self.ents = kept;
        self.pending = Vec::new();
        proof {
            assert(self@ =~= origv.filter(keep));
            let fs = self@;
            lemma_filter_elements(origv, keep);
            lemma_filter_unique(origv, keep);
            assert forall|a: int|
                0 <= a < fs.len() implies rec_wf(#[trigger] fs[a]) && fs[a].id < self.next_id
                && fs[a].marker < self.next_marker by {
                let w = choose|w: int| 0 <= w < origv.len() && origv[w] == fs[a];
            }
        }
    }
}

/// Every element of a filtered sequence occurs in the sequence it
/// was filtered from.
pub proof fn lemma_filter_elements<A>(s: Seq<A>, pred: spec_fn(A) -> bool)
    ensures
        forall|a: int|
            0 <= a < s.filter(pred).len() ==> exists|w: int|
                0 <= w < s.len() && s[w] == #[trigger] s.filter(pred)[a],
    decreases s.len(),
{
    reveal(Seq::filter);
    if s.len() > 0 {
        let dl = s.drop_last();
        lemma_filter_elements(dl, pred);
        assert forall|a: int|
            0 <= a < s.filter(pred).len() implies exists|w: int|
                0 <= w < s.len() && s[w] == #[trigger] s.filter(pred)[a] by {
            if a < dl.filter(pred).len() {
                let w = choose|w: int| 0 <= w < dl.len() && dl[w] == dl.filter(pred)[a];
                assert(s[w] == s.filter(pred)[a]);
            } else {
                assert(s.filter(pred)[a] == s.last());
                assert(s[s.len() - 1] == s.filter(pred)[a]);
            }
        }
    }
}

/// Filtering keeps ids and markers unique.
pub proof fn lemma_filter_unique(s: Seq<RecV>, pred: spec_fn(RecV) -> bool)
    requires
        ids_unique(s),
        markers_unique(s),
    ensures
        ids_unique(s.filter(pred)),
        markers_unique(s.filter(pred)),
    decreases s.len(),
{
    reveal(Seq::filter);
    if s.len() > 0 {
        let dl = s.drop_last();
        assert(ids_unique(dl));
        assert(markers_unique(dl));
        lemma_filter_unique(dl, pred);
        lemma_filter_elements(dl, pred);
        let f = s.filter(pred);
        let fd = dl.filter(pred);
        assert forall|a: int, b: int|
            0 <= a < b < f.len() implies (#[trigger] f[a]).id != (#[trigger] f[b]).id && f[a].marker
            != f[b].marker by {
            if b < fd.len() {
                assert(f[a] == fd[a] && f[b] == fd[b]);
            } else {
                assert(f[b] == s.last());
                let w = choose|w: int| 0 <= w < dl.len() && dl[w] == fd[a];
                assert(s[w] == f[a]);
                assert(s[w].id != s[s.len() - 1].id);
                assert(s[w].marker != s[s.len() - 1].marker);
            }
        }
    }
}

/// Pointwise-equal ids give the same index for every id.
pub proof fn lemma_idx_of_same_ids(s1: Seq<RecV>, s2: Seq<RecV>, id: u64)
    requires
        s1.len() == s2.len(),
        forall|i: int| 0 <= i < s1.len() ==> (#[trigger] s1[i]).id == (#[trigger] s2[i]).id,
    ensures
        idx_of(s1, id) == idx_of(s2, id),
    decreases s1.len(),
{
    if s1.len() > 0 {
        assert(s1[0].id == s2[0].id);
        if s1[0].id != id {
            assert forall|i: int|
                0 <= i < s1.drop_first().len() implies (#[trigger] s1.drop_first()[i]).id == (
            #[trigger] s2.drop_first()[i]).id by {
                assert(s1.drop_first()[i] == s1[i + 1]);
                assert(s2.drop_first()[i] == s2[i + 1]);
            }
            lemma_idx_of_same_ids(s1.drop_first(), s2.drop_first(), id);
        }
    }
}

/// A record-for-record change that keeps ids, carry relations and
/// the presence of player information cannot introduce a dangling
/// carry relation.
pub proof fn lemma_carries_ok_transfer(s1: Seq<RecV>, s2: Seq<RecV>)
    requires
        s1.len() == s2.len(),
        forall|i: int|
            0 <= i < s1.len() ==> (#[trigger] s1[i]).id == (#[trigger] s2[i]).id
                && s1[i].carried_by == s2[i].carried_by && (s1[i].player_info is Some
                <==> s2[i].player_info is Some),
        carries_ok(s1),
    ensures
        carries_ok(s2),
{
    assert forall|i: int|
        0 <= i < s2.len() implies ((#[trigger] s2[i]).carried_by matches Option::Some(c)
        ==> has_id(s2, c.owner) && rec_of(s2, c.owner).player_info is Some) by {
        if s2[i].carried_by is Some {
            let c = s2[i].carried_by->Some_0;
            assert(s1[i].carried_by == s2[i].carried_by);
            let w = choose|w: int| 0 <= w < s1.len() && (#[trigger] s1[w]).id == c.owner;
            assert(s2[w].id == c.owner);
            assert(has_id(s2, c.owner));
            lemma_idx_of_same_ids(s1, s2, c.owner);
            lemma_idx_of(s1, c.owner);
            lemma_idx_of(s2, c.owner);
        }
    }
}

/// Clone one string, preserving its characters.
pub fn clone_string(s: &String) -> (r: String)
    ensures
        r == *s,
{
    s.clone()
}

/// Clone a list of image names, preserving every name.
pub fn clone_string_vec(v: &Vec<String>) -> (r: Vec<String>)
    ensures
        r@ == v@,
{
    let mut r: Vec<String> = Vec::new();
    let mut i: usize = 0;
    while i < v.len()
        invariant
            i <= v@.len(),
            r@.len() == i,
            forall|j: int| 0 <= j < i ==> r@[j] == v@[j],
        decreases v@.len() - i,
    {
        r.push(clone_string(&v[i]));
        i = i + 1;
    }
    proof {
        assert(r@ =~= v@);
    }
    r
}

/// Clone one entity record, preserving the view of every component.
pub fn clone_record(r: &EntityRecord) -> (c: EntityRecord)
    ensures
        c@ == r@,
{
    let c = EntityRecord {
        id: r.id,
        marker: r.marker,
        fps_tracker: r.fps_tracker,
        location: r.location,
        player_info: match &r.player_info {
            Option::Some(p) => Option::Some(PlayerInfo { id: clone_string(&p.id) }),
            Option::None => Option::None,
        },
        renderable: r.renderable,
        text_renderable: match &r.text_renderable {
            Option::Some(t) => Option::Some(
                TextRenderable {
                    text: clone_string(&t.text),
                    font_size: t.font_size,
                    offset_x: t.offset_x,
                    offset_y: t.offset_y,
                },
            ),
            Option::None => Option::None,
        },
        chat_renderable: match &r.chat_renderable {
            Option::Some(t) => Option::Some(
                ChatRenderable {
                    text: clone_string(&t.text),
                    offset_x: t.offset_x,
                    offset_y: t.offset_y,
                },
            ),
            Option::None => Option::None,
        },
        graphic_renderable: match &r.graphic_renderable {
            Option::Some(t) => Option::Some(
                GraphicRenderable {
                    image_name: clone_string(&t.image_name),
                    offset_x: t.offset_x,
                    offset_y: t.offset_y,
                },
            ),
            Option::None => Option::None,
        },
        graphic_animatable: match &r.graphic_animatable {
            Option::Some(t) => Option::Some(
                GraphicAnimatable {
                    image_names: clone_string_vec(&t.image_names),
                    tick_interval: t.tick_interval,
                    ticks: t.ticks,
                },
            ),
            Option::None => Option::None,
        },
        wants_to_move_to: r.wants_to_move_to,
        disappearing: r.disappearing,
        carried_by: r.carried_by,
        crab_ai: r.crab_ai,
        wants_to_be_picked_up: r.wants_to_be_picked_up,
        wants_to_stab: r.wants_to_stab,
    };
    proof {
        assert(c@ =~~= r@);
    }
    c
}

} // verus!

verus! {

/// A kept element occurs in the filtered sequence.
pub proof fn lemma_filter_contains_at<A>(s: Seq<A>, pred: spec_fn(A) -> bool, i: int)
    requires
        0 <= i < s.len(),
        pred(s[i]),
    ensures
        exists|k: int| 0 <= k < s.filter(pred).len() && #[trigger] s.filter(pred)[k] == s[i],
    decreases s.len(),
{
    reveal(Seq::filter);
    if s.len() > 0 {
        let dl = s.drop_last();
        let f = s.filter(pred);
        if i == s.len() - 1 {
            assert(f.last() == s[i]);
        } else {
            lemma_filter_contains_at(dl, pred, i);
            let k = choose|k: int|
                0 <= k < dl.filter(pred).len() && #[trigger] dl.filter(pred)[k] == dl[i];
            assert(f[k] == dl.filter(pred)[k]);
            assert(f[k] == s[i]);
        }
    }
}

} // verus!

verus! {

/// The deletion queue is sane between phases: closed under the carry
/// relation and holding only ids the allocator has issued.
pub open spec fn pending_ok(w: World) -> bool {
    &&& pending_closed(w@, w.pending@)
    &&& forall|id: u64| #[trigger] w.pending@.contains(id) ==> id < w.next_id
}

/// A change that keeps ids and carry relations record for record
/// keeps the queue closed.
pub proof fn lemma_closed_same_relations(s1: Seq<RecV>, s2: Seq<RecV>, p: Seq<u64>)
    requires
        s1.len() == s2.len(),
        forall|i: int|
            0 <= i < s1.len() ==> (#[trigger] s1[i]).id == (#[trigger] s2[i]).id
                && s1[i].carried_by == s2[i].carried_by,
        pending_closed(s1, p),
    ensures
        pending_closed(s2, p),
{
    assert forall|i: int|
        0 <= i < s2.len() implies ((#[trigger] s2[i]).carried_by matches Option::Some(c)
        && p.contains(c.owner) ==> p.contains(s2[i].id)) by {
        if s2[i].carried_by is Some {
            assert(s1[i].carried_by == s2[i].carried_by);
        }
    }
}

/// Queueing ids that own nothing keeps the queue closed.
pub proof fn lemma_closed_append_nonowners(s: Seq<RecV>, p: Seq<u64>, extra: Seq<u64>)
    requires
        pending_closed(s, p),
        forall|i: int|
            0 <= i < s.len() ==> ((#[trigger] s[i]).carried_by matches Option::Some(c)
                ==> !extra.contains(c.owner)),
    ensures
        pending_closed(s, p + extra),
{
    assert forall|i: int|
        0 <= i < s.len() implies ((#[trigger] s[i]).carried_by matches Option::Some(c) && (p
        + extra).contains(c.owner) ==> (p + extra).contains(s[i].id)) by {
        if s[i].carried_by is Some {
            let c = s[i].carried_by->Some_0;
            if (p + extra).contains(c.owner) {
                let w = choose|w: int| 0 <= w < (p + extra).len() && (p + extra)[w] == c.owner;
                if w < p.len() {
                    assert(p[w] == c.owner);
                    assert(p.contains(c.owner));
                    assert(p.contains(s[i].id));
                    let w2 = choose|w2: int| 0 <= w2 < p.len() && p[w2] == s[i].id;
                    assert((p + extra)[w2] == s[i].id);
                } else {
                    assert(extra[w - p.len()] == c.owner);
                    assert(extra.contains(c.owner));
                }
            }
        }
    }
}

/// With a closed queue, applying the deletions cannot leave a carry
/// relation dangling: either the owner survives or the carried record
/// was deleted with it.
pub proof fn lemma_maintain_carries_ok(s: Seq<RecV>, p: Seq<u64>)
    requires
        ids_unique(s),
        carries_ok(s),
        pending_closed(s, p),
    ensures
        carries_ok(s.filter(|r: RecV| !p.contains(r.id))),
{
    let keep = |r: RecV| !p.contains(r.id);
    let f = s.filter(keep);
    lemma_filter_elements(s, keep);
    assert forall|i: int|
        0 <= i < f.len() implies ((#[trigger] f[i]).carried_by matches Option::Some(c)
        ==> has_id(f, c.owner) && rec_of(f, c.owner).player_info is Some) by {
        if f[i].carried_by is Some {
            let c = f[i].carried_by->Some_0;
            let w = choose|w: int| 0 <= w < s.len() && s[w] == f[i];
            assert(s[w].carried_by == Option::Some(c));
            lemma_idx_of(s, c.owner);
            let ox = idx_of(s, c.owner);
            assert(s[ox].id == c.owner);
            assert(s[ox].player_info is Some);
            // keep(f[i]) holds, so the carried record is not queued;
            // by closure its owner is not queued either
            reveal(Seq::filter);
            s.lemma_filter_pred(keep, i);
            assert(!p.contains(s[w].id));
            if p.contains(c.owner) {
                assert(p.contains(s[w].id));
            }
            assert(keep(s[ox]));
            lemma_filter_contains_at(s, keep, ox);
            let k = choose|k: int| 0 <= k < f.len() && #[trigger] f[k] == s[ox];
            assert(f[k].id == c.owner);
            assert(has_id(f, c.owner));
            lemma_idx_of(f, c.owner);
            let fx = idx_of(f, c.owner);
            let w2 = choose|w2: int| 0 <= w2 < s.len() && s[w2] == f[fx];
            assert(s[w2].id == c.owner);
            if w2 != ox {
                assert(s[w2].id != s[ox].id || w2 == ox);
            }
            assert(rec_of(f, c.owner) == f[fx]);
            assert(f[fx].player_info is Some);
        }
    }
}

} // verus!
