//! The mutable overlay of a lane: recent fingerprint → shape-set changes,
//! with tombstones so that a removal can shadow older segment data.

use vstd::prelude::*;
use crate::assoc::{assoc_map, distinct_keys, assoc_find, lemma_assoc_index, lemma_assoc_absent,
    lemma_assoc_member, lemma_assoc_dom_len, lemma_assoc_update, lemma_assoc_push};
use crate::hash::KeyHash;
use crate::shape_set::{sorted_strict, insert_shape, remove_shape};

verus! {

/// One overlay slot: a live shape-set, or a tombstone recording that the key
/// was removed.
#[derive(Debug)]
pub enum OverlayEntry {
    /// The key currently maps to these shape ids.
    Present(Vec<u32>),
    /// The key was removed; shadows any value an older segment holds.
    Deleted,
}

/// What a slot means: a set of ids, or `None` for a tombstone.
pub open spec fn entry_view(e: OverlayEntry) -> Option<Set<u32>> {
    match e {
        OverlayEntry::Present(v) => Some(v@.to_set()),
        OverlayEntry::Deleted => None,
    }
}

/// A live slot holds a sorted, duplicate-free, non-empty vector.
pub open spec fn entry_wf(e: OverlayEntry) -> bool {
    match e {
        OverlayEntry::Present(v) => sorted_strict(v@) && v@.len() >= 1,
        OverlayEntry::Deleted => true,
    }
}

/// The set a key maps to in an overlay image, the empty set where it maps to
/// nothing or to a tombstone.
pub open spec fn present_at(m: Map<u64, Option<Set<u32>>>, h: u64) -> Set<u32> {
    if m.dom().contains(h) && m[h] is Some {
        m[h].unwrap()
    } else {
        Set::empty()
    }
}

/// One more change was recorded: the generation grows until it pegs.
pub open spec fn bump(g: u64) -> u64 {
    if g < u64::MAX {
        (g + 1) as u64
    } else {
        u64::MAX
    }
}

/// Fast mutable table of recent changes for one lane.
#[derive(Debug)]
pub struct Overlay {
    entries: Vec<(u64, OverlayEntry)>,
    generation: u64,
}

impl Overlay {
    /// The overlay as a map: present keys to `Some` set, tombstones to `None`.
    pub closed spec fn view_map(self) -> Map<u64, Option<Set<u32>>> {
        Map::new(
            |h: u64| assoc_map(self.entries@).dom().contains(h),
            |h: u64| entry_view(assoc_map(self.entries@)[h]),
        )
    }

    /// Keys are distinct and every live slot is a well-formed shape-set.
    pub closed spec fn wf(self) -> bool {
        &&& distinct_keys(self.entries@)
        &&& forall|i: int| 0 <= i < self.entries@.len() ==> entry_wf(#[trigger] self.entries@[i].1)
    }

    /// The change counter.
    pub closed spec fn spec_generation(self) -> u64 {
        self.generation
    }

    /// A fresh, empty overlay.
    pub fn new() -> (r: Self)
        ensures
            r.wf(),
            r.view_map() == Map::<u64, Option<Set<u32>>>::empty(),
            r.spec_generation() == 0,
    {
        let r = Overlay { entries: Vec::new(), generation: 0 };
        proof {
            assert(r.view_map() =~= Map::<u64, Option<Set<u32>>>::empty());
        }
        r
    }

    /// An empty overlay with room preallocated for `capacity` entries.
    pub fn with_capacity(capacity: usize) -> (r: Self)
        ensures
            r.wf(),
            r.view_map() == Map::<u64, Option<Set<u32>>>::empty(),
            r.spec_generation() == 0,
    {
        let r = Overlay { entries: Vec::with_capacity(capacity), generation: 0 };
        proof {
            assert(r.view_map() =~= Map::<u64, Option<Set<u32>>>::empty());
        }
        r
    }

    /// Record that `hash` maps to `shape_id` as well: upserts the slot,
    /// turning a tombstone back into a live set.
    pub fn insert(&mut self, hash: KeyHash, shape_id: u32)
        requires
            old(self).wf(),
        ensures
            final(self).wf(),
            final(self).view_map() == old(self).view_map().insert(
                hash.0,
                Some(present_at(old(self).view_map(), hash.0).insert(shape_id)),
            ),
            final(self).spec_generation() == bump(old(self).spec_generation()),
    {
        let ghost e0 = self.entries@;
        let ghost m0 = self.view_map();
        match assoc_find(&self.entries, hash.0) {
            Some(i) => {
                proof {
                    lemma_assoc_index(e0, i as int);
                }
                let slot = &mut self.entries[i].1;
                match slot {
                    OverlayEntry::Present(ids) => {
                        insert_shape(ids, shape_id);
                        proof {
                            assert(ids@.to_set().contains(shape_id));
                            assert(ids@.contains(shape_id));
                        }
                    }
                    OverlayEntry::Deleted => {
                        let mut ids: Vec<u32> = Vec::new();
                        ids.push(shape_id);
                        proof {
                            assert(sorted_strict(ids@));
                            assert(ids@.to_set() =~= Set::empty().insert(shape_id)) by {
                                assert(ids@[0] == shape_id);
                                assert forall|e: u32| Set::empty().insert(shape_id).contains(e)
                                    implies ids@.to_set().contains(e) by {
                                    assert(ids@[0] == e);
                                }
                            }
                        }
                        *slot = OverlayEntry::Present(ids);
                    }
                }
                proof {
                    let e1 = self.entries@;
                    assert(e1 == e0.update(i as int, (e0[i as int].0, e1[i as int].1)));
                    lemma_assoc_update(e0, i as int, e1[i as int].1);
                    assert(entry_view(e1[i as int].1)
                        == Some(present_at(m0, hash.0).insert(shape_id)));
                    assert(self.view_map() =~= m0.insert(
                        hash.0,
                        Some(present_at(m0, hash.0).insert(shape_id)),
                    ));
                }
            }
            None => {
                let mut ids: Vec<u32> = Vec::new();
                ids.push(shape_id);
                proof {
                    assert(sorted_strict(ids@));
                    assert(ids@.to_set() =~= Set::empty().insert(shape_id)) by {
                        assert(ids@[0] == shape_id);
                        assert forall|e: u32| Set::empty().insert(shape_id).contains(e)
                            implies ids@.to_set().contains(e) by {
                            assert(ids@[0] == e);
                        }
                    }
                    lemma_assoc_absent(e0, hash.0);
                    lemma_assoc_push(e0, hash.0, OverlayEntry::Present(ids));
                }
                self.entries.push((hash.0, OverlayEntry::Present(ids)));
                proof {
                    assert(forall|k: int| 0 <= k < e0.len()
                        ==> #[trigger] self.entries@[k] == e0[k]);
                    assert(present_at(m0, hash.0) =~= Set::empty());
                    assert(self.view_map() =~= m0.insert(
                        hash.0,
                        Some(present_at(m0, hash.0).insert(shape_id)),
                    ));
                }
            }
        }
        self.generation = if self.generation < u64::MAX { self.generation + 1 } else { u64::MAX };
    }

    /// Record that `hash` no longer maps to `shape_id`. A set that empties —
    /// and a key the overlay does not hold — becomes a tombstone, so the
    /// removal shadows whatever older segments hold for the key.
    pub fn remove(&mut self, hash: KeyHash, shape_id: u32)
        requires
            old(self).wf(),
        ensures
            final(self).wf(),
            final(self).view_map() == old(self).view_map().insert(
                hash.0,
                removed_entry(old(self).view_map(), hash.0, shape_id),
            ),
            final(self).spec_generation() == bump(old(self).spec_generation()),
    {
        let ghost e0 = self.entries@;
        let ghost m0 = self.view_map();
        match assoc_find(&self.entries, hash.0) {
            Some(i) => {
                proof {
                    lemma_assoc_index(e0, i as int);
                }
                let slot = &mut self.entries[i].1;
                match slot {
                    OverlayEntry::Present(ids) => {
                        remove_shape(ids, shape_id);
                        if ids.len() == 0 {
                            proof {
                                assert(ids@.to_set() =~= Set::<u32>::empty());
                            }
                            *slot = OverlayEntry::Deleted;
                        } else {
                            proof {
                                assert(ids@.to_set().contains(ids@[0]));
                            }
                        }
                    }
                    OverlayEntry::Deleted => {}
                }
                proof {
                    let e1 = self.entries@;
                    assert(e1 == e0.update(i as int, (e0[i as int].0, e1[i as int].1)));
                    lemma_assoc_update(e0, i as int, e1[i as int].1);
                    assert(entry_view(e1[i as int].1) == removed_entry(m0, hash.0, shape_id));
                    assert(self.view_map() =~= m0.insert(
                        hash.0,
                        removed_entry(m0, hash.0, shape_id),
                    ));
                }
            }
            None => {
                proof {
                    lemma_assoc_absent(e0, hash.0);
                    lemma_assoc_push(e0, hash.0, OverlayEntry::Deleted);
                }
                self.entries.push((hash.0, OverlayEntry::Deleted));
                proof {
                    assert(forall|k: int| 0 <= k < e0.len()
                        ==> #[trigger] self.entries@[k] == e0[k]);
                    assert(self.view_map() =~= m0.insert(
                        hash.0,
                        removed_entry(m0, hash.0, shape_id),
                    ));
                }
            }
        }
        self.generation = if self.generation < u64::MAX { self.generation + 1 } else { u64::MAX };
    }

    /// The ids `hash` currently maps to, sorted ascending; `None` for an
    /// unknown key and for a tombstone alike.
    pub fn lookup(&self, hash: KeyHash) -> (r: Option<Vec<u32>>)
        requires
            self.wf(),
        ensures
            match r {
                Some(ids) => {
                    &&& self.view_map().dom().contains(hash.0)
                    &&& self.view_map()[hash.0] is Some
                    &&& sorted_strict(ids@)
                    &&& ids@.to_set() == self.view_map()[hash.0].unwrap()
                    &&& ids@.len() >= 1
                },
                None => !(self.view_map().dom().contains(hash.0)
                    && self.view_map()[hash.0] is Some),
            },
    {
        match assoc_find(&self.entries, hash.0) {
            Some(i) => {
                proof {
                    lemma_assoc_index(self.entries@, i as int);
                }
                match &self.entries[i].1 {
                    OverlayEntry::Present(ids) => Some(vstd::slice::slice_to_vec(ids.as_slice())),
                    OverlayEntry::Deleted => None,
                }
            }
            None => {
                proof {
                    lemma_assoc_absent(self.entries@, hash.0);
                }
                None
            }
        }
    }

    /// Whether the overlay holds the key at all, tombstones included.
    pub fn contains(&self, hash: KeyHash) -> (r: bool)
        requires
            self.wf(),
        ensures
            r == self.view_map().dom().contains(hash.0),
    {
        match assoc_find(&self.entries, hash.0) {
            Some(i) => {
                proof {
                    lemma_assoc_index(self.entries@, i as int);
                }
                true
            }
            None => {
                proof {
                    lemma_assoc_absent(self.entries@, hash.0);
                }
                false
            }
        }
    }

    /// How many keys the overlay holds, tombstones included.
    pub fn len(&self) -> (r: usize)
        requires
            self.wf(),
        ensures
            r == self.view_map().dom().len(),
    {
        proof {
            lemma_assoc_dom_len(self.entries@);
            assert(self.view_map().dom() =~= assoc_map(self.entries@).dom());
        }
        self.entries.len()
    }

    /// Whether the overlay holds no key.
    pub fn is_empty(&self) -> (r: bool)
        requires
            self.wf(),
        ensures
            r == (self.view_map().dom() == Set::<u64>::empty()),
    {
        proof {
            if self.entries@.len() > 0 {
                lemma_assoc_index(self.entries@, 0);
                assert(self.view_map().dom().contains(self.entries@[0].0));
            } else {
                assert(self.view_map().dom() =~= Set::<u64>::empty());
            }
        }
        self.entries.is_empty()
    }

    /// The change counter: how many inserts and removes this overlay has
    /// seen since it was created or last cleared.
    pub fn generation(&self) -> (r: u64)
        ensures
            r == self.spec_generation(),
    {
        self.generation
    }

    /// The raw slots, for walking the overlay during compaction.
    pub fn iter(&self) -> (r: &Vec<(u64, OverlayEntry)>)
        requires
            self.wf(),
        ensures
            distinct_keys(r@),
            forall|i: int| 0 <= i < r@.len() ==> entry_wf(#[trigger] r@[i].1),
            self.view_map().dom() == assoc_map(r@).dom(),
            self.view_map() == Map::new(
                |h: u64| assoc_map(r@).dom().contains(h),
                |h: u64| entry_view(assoc_map(r@)[h]),
            ),
            forall|i: int| 0 <= i < r@.len() ==> {
                &&& #[trigger] self.view_map().dom().contains(r@[i].0)
                &&& self.view_map()[r@[i].0] == entry_view(r@[i].1)
            },
            forall|h: u64| #[trigger] self.view_map().dom().contains(h)
                ==> exists|i: int| 0 <= i < r@.len() && r@[i].0 == h,
    {
        proof {
            assert(self.view_map().dom() =~= assoc_map(self.entries@).dom());
            assert forall|i: int| 0 <= i < self.entries@.len() implies {
                &&& self.view_map().dom().contains(#[trigger] self.entries@[i].0)
                &&& self.view_map()[self.entries@[i].0] == entry_view(self.entries@[i].1)
            } by {
                lemma_assoc_index(self.entries@, i);
            }
            assert forall|h: u64| #[trigger] self.view_map().dom().contains(h)
                implies exists|i: int| 0 <= i < self.entries@.len() && self.entries@[i].0 == h by {
                lemma_assoc_member(self.entries@, h);
            }
        }
        &self.entries
    }

    /// Every shape id held by some live slot, ascending.
    pub fn all_shape_ids(&self) -> (r: Vec<u32>)
        requires
            self.wf(),
        ensures
            sorted_strict(r@),
            forall|id: u32| r@.to_set().contains(id) <==> exists|h: u64| {
                &&& #[trigger] self.view_map().dom().contains(h)
                &&& self.view_map()[h] is Some
                &&& self.view_map()[h].unwrap().contains(id)
            },
    {
        let mut out: Vec<u32> = Vec::new();
        let mut i: usize = 0;
        while i < self.entries.len()
            invariant
                i <= self.entries@.len(),
                self.wf(),
                sorted_strict(out@),
                forall|id: u32| out@.to_set().contains(id) <==> exists|k: int|
                    #![trigger slot_ids(self.entries@[k].1).contains(id)]
                    0 <= k < i && slot_ids(self.entries@[k].1).contains(id),
            decreases self.entries@.len() - i,
        {
            let ghost pre = out@;
            match &self.entries[i].1 {
                OverlayEntry::Present(ids) => {
                    crate::shape_set::union_shapes(&mut out, ids);
                }
                OverlayEntry::Deleted => {}
            }
            proof {
                assert forall|id: u32| out@.to_set().contains(id) implies exists|k: int|
                    #![trigger slot_ids(self.entries@[k].1).contains(id)]
                    0 <= k < i + 1 && slot_ids(self.entries@[k].1).contains(id) by {
                    if pre.to_set().contains(id) {
                        let k = choose|k: int|
                            0 <= k < i && #[trigger] slot_ids(self.entries@[k].1).contains(id);
                        assert(slot_ids(self.entries@[k].1).contains(id));
                    } else {
                        assert(slot_ids(self.entries@[i as int].1).contains(id));
                    }
                }
                assert forall|id: u32, k: int|
                    0 <= k < i + 1 && #[trigger] slot_ids(self.entries@[k].1).contains(id)
                    implies out@.to_set().contains(id) by {
                    if k < i {
                        assert(pre.to_set().contains(id));
                    }
                }
            }
            i = i + 1;
        }
        proof {
            assert forall|id: u32| out@.to_set().contains(id) implies exists|h: u64| {
                &&& #[trigger] self.view_map().dom().contains(h)
                &&& self.view_map()[h] is Some
                &&& self.view_map()[h].unwrap().contains(id)
            } by {
                let k = choose|k: int|
                    0 <= k < self.entries@.len()
                        && #[trigger] slot_ids(self.entries@[k].1).contains(id);
                lemma_assoc_index(self.entries@, k);
                assert(self.view_map().dom().contains(self.entries@[k].0));
                assert(self.view_map()[self.entries@[k].0] == entry_view(self.entries@[k].1));
            }
            assert forall|id: u32| (exists|h: u64| {
                &&& #[trigger] self.view_map().dom().contains(h)
                &&& self.view_map()[h] is Some
                &&& self.view_map()[h].unwrap().contains(id)
            }) implies out@.to_set().contains(id) by {
                let h = choose|h: u64| {
                    &&& #[trigger] self.view_map().dom().contains(h)
                    &&& self.view_map()[h] is Some
                    &&& self.view_map()[h].unwrap().contains(id)
                };
                lemma_assoc_member(self.entries@, h);
                let k = choose|k: int| 0 <= k < self.entries@.len() && self.entries@[k].0 == h;
                lemma_assoc_index(self.entries@, k);
                assert(slot_ids(self.entries@[k].1).contains(id));
            }
        }
        out
    }

    /// Forget everything, resetting the change counter.
    pub fn clear(&mut self)
        ensures
            final(self).wf(),
            final(self).view_map() == Map::<u64, Option<Set<u32>>>::empty(),
            final(self).spec_generation() == 0,
    {
        self.entries.clear();
        self.generation = 0;
        proof {
            assert(self.view_map() =~= Map::<u64, Option<Set<u32>>>::empty());
        }
    }

    /// A well-formed overlay's key domain is finite, so `insert` and
    /// `remove` change `len` by at most one in the usual way.
    pub proof fn lemma_dom_finite(self)
        requires
            self.wf(),
        ensures
            self.view_map().dom().finite(),
    {
        lemma_assoc_dom_len(self.entries@);
        assert(self.view_map().dom() =~= assoc_map(self.entries@).dom());
    }

    /// Shadow `hash` outright with a tombstone, whatever the slot held. The
    /// change counter is untouched: this records no new user change.
    fn force_tombstone(&mut self, hash: KeyHash)
        requires
            old(self).wf(),
        ensures
            final(self).wf(),
            final(self).view_map() == old(self).view_map().insert(hash.0, None),
            final(self).spec_generation() == old(self).spec_generation(),
    {
        let ghost e0 = self.entries@;
        let ghost m0 = self.view_map();
        match assoc_find(&self.entries, hash.0) {
            Some(i) => {
                proof {
                    lemma_assoc_index(e0, i as int);
                }
                let slot = &mut self.entries[i].1;
                *slot = OverlayEntry::Deleted;
                proof {
                    let e1 = self.entries@;
                    assert(e1 == e0.update(i as int, (e0[i as int].0, OverlayEntry::Deleted)));
                    lemma_assoc_update(e0, i as int, OverlayEntry::Deleted);
                    assert(self.view_map() =~= m0.insert(hash.0, None));
                }
            }
            None => {
                proof {
                    lemma_assoc_absent(e0, hash.0);
                    lemma_assoc_push(e0, hash.0, OverlayEntry::Deleted);
                }
                self.entries.push((hash.0, OverlayEntry::Deleted));
                proof {
                    assert(forall|k: int| 0 <= k < e0.len()
                        ==> #[trigger] self.entries@[k] == e0[k]);
                    assert(self.view_map() =~= m0.insert(hash.0, None));
                }
            }
        }
    }

    /// Fold `other` into this overlay, as consolidation during compaction
    /// does: each live slot of `other` adds its ids to ours, and each
    /// tombstone of `other` shadows whatever we held for the key.
    pub fn merge(&mut self, other: &Overlay)
        requires
            old(self).wf(),
            other.wf(),
        ensures
            final(self).wf(),
            final(self).view_map()
                == merged_overlay(old(self).view_map(), other.view_map()),
            final(self).spec_generation() >= old(self).spec_generation(),
    {
        let ghost m1 = old(self).view_map();
        let ghost oe = other.entries@;
        let ghost g0 = old(self).spec_generation();
        proof {
            assert(merged_overlay(m1, slots_view(oe.subrange(0, 0))) =~= m1);
        }
        let mut i: usize = 0;
        while i < other.entries.len()
            invariant
                i <= oe.len(),
                oe == other.entries@,
                other.wf(),
                self.wf(),
                self.view_map() == merged_overlay(m1, slots_view(oe.subrange(0, i as int))),
                self.spec_generation() >= g0,
            decreases oe.len() - i,
        {
            let ghost prefix = oe.subrange(0, i as int);
            let ghost mcur = self.view_map();
            let hash = KeyHash(other.entries[i].0);
            proof {
                assert(distinct_keys(prefix)) by {
                    assert forall|a: int, b: int| 0 <= a < b < prefix.len()
                        implies #[trigger] prefix[a].0 != #[trigger] prefix[b].0 by {
                        assert(prefix[a] == oe[a] && prefix[b] == oe[b]);
                    }
                }
                assert forall|k: int| 0 <= k < prefix.len()
                    implies #[trigger] prefix[k].0 != hash.0 by {
                    assert(prefix[k] == oe[k] && oe[i as int].0 == hash.0);
                }
                lemma_assoc_absent(prefix, hash.0);
                assert(present_at(mcur, hash.0) == present_at(m1, hash.0)) by {
                    if m1.dom().contains(hash.0) {
                        assert(mcur[hash.0] == m1[hash.0]);
                    } else {
                        assert(!mcur.dom().contains(hash.0));
                    }
                }
            }
            match &other.entries[i].1 {
                OverlayEntry::Present(ids) => {
                    proof {
                        assert(entry_wf(oe[i as int].1));
                        assert(ids@.len() >= 1);
                    }
                    let mut j: usize = 0;
                    while j < ids.len()
                        invariant
                            j <= ids@.len(),
                            self.wf(),
                            self.spec_generation() >= g0,
                            j == 0 ==> self.view_map() == mcur,
                            j > 0 ==> self.view_map() == mcur.insert(
                                hash.0,
                                Some(present_at(mcur, hash.0).union(
                                    ids@.subrange(0, j as int).to_set(),
                                )),
                            ),
                        decreases ids@.len() - j,
                    {
                        let ghost vpre = self.view_map();
                        self.insert(hash, ids[j]);
                        proof {
                            lemma_subrange_to_set_step(ids@, j as int);
                            if j == 0 {
                                assert(ids@.subrange(0, 0).to_set() =~= Set::<u32>::empty());
                                assert(present_at(vpre, hash.0).insert(ids@[0])
                                    =~= present_at(mcur, hash.0).union(
                                        ids@.subrange(0, 1).to_set(),
                                    ));
                            } else {
                                let tj = present_at(mcur, hash.0).union(
                                    ids@.subrange(0, j as int).to_set(),
                                );
                                assert(present_at(vpre, hash.0) == tj);
                                assert(tj.insert(ids@[j as int])
                                    =~= present_at(mcur, hash.0).union(
                                        ids@.subrange(0, j + 1).to_set(),
                                    ));
                                assert(vpre.insert(
                                    hash.0,
                                    Some(present_at(vpre, hash.0).insert(ids@[j as int])),
                                ) =~= mcur.insert(
                                    hash.0,
                                    Some(present_at(mcur, hash.0).union(
                                        ids@.subrange(0, j + 1).to_set(),
                                    )),
                                ));
                            }
                        }
                        j = j + 1;
                    }
                    proof {
                        assert(ids@.subrange(0, ids@.len() as int) =~= ids@);
                        let next = oe.subrange(0, i + 1);
                        assert(next =~= prefix.push((hash.0, oe[i as int].1)));
                        lemma_assoc_push(prefix, hash.0, oe[i as int].1);
                        assert(oe[i as int].1 matches OverlayEntry::Present(v) && v@ == ids@);
                        assert(slots_view(next)
                            =~= slots_view(prefix).insert(hash.0, Some(ids@.to_set())));
                        assert(self.view_map() =~= merged_overlay(m1, slots_view(next)));
                    }
                }
                OverlayEntry::Deleted => {
                    self.force_tombstone(hash);
                    proof {
                        let next = oe.subrange(0, i + 1);
                        assert(next =~= prefix.push((hash.0, oe[i as int].1)));
                        lemma_assoc_push(prefix, hash.0, oe[i as int].1);
                        assert(oe[i as int].1 is Deleted);
                        assert(slots_view(next)
                            =~= slots_view(prefix).insert(hash.0, None));
                        assert(self.view_map() =~= merged_overlay(m1, slots_view(next)));
                    }
                }
            }
            i = i + 1;
        }
        proof {
            assert(oe.subrange(0, oe.len() as int) =~= oe);
            assert(other.view_map() =~= slots_view(oe));
        }
    }
}

/// The ids a slot contributes: its set for a live slot, nothing for a
/// tombstone.
pub open spec fn slot_ids(e: OverlayEntry) -> Set<u32> {
    match e {
        OverlayEntry::Present(v) => v@.to_set(),
        OverlayEntry::Deleted => Set::empty(),
    }
}

/// The map a distinct-keyed slot sequence stands for: present keys to
/// `Some` set, tombstones to `None`.
pub open spec fn slots_view(slots: Seq<(u64, OverlayEntry)>) -> Map<u64, Option<Set<u32>>> {
    Map::new(
        |h: u64| assoc_map(slots).dom().contains(h),
        |h: u64| entry_view(assoc_map(slots)[h]),
    )
}

/// What merging overlay image `m2` into image `m1` yields: a live slot of
/// `m2` adds its ids to whatever `m1` holds for the key, a tombstone of `m2`
/// shadows it, and keys `m2` does not hold keep `m1`'s slot.
pub open spec fn merged_overlay(
    m1: Map<u64, Option<Set<u32>>>,
    m2: Map<u64, Option<Set<u32>>>,
) -> Map<u64, Option<Set<u32>>> {
    Map::new(
        |h: u64| m1.dom().contains(h) || m2.dom().contains(h),
        |h: u64| if m2.dom().contains(h) {
            if m2[h] is Some {
                Some(present_at(m1, h).union(m2[h].unwrap()))
            } else {
                None
            }
        } else {
            m1[h]
        },
    )
}

/// Extending a prefix by one element adds that element to the prefix's set.
proof fn lemma_subrange_to_set_step(s: Seq<u32>, j: int)
    requires
        0 <= j < s.len(),
    ensures
        s.subrange(0, j + 1).to_set() == s.subrange(0, j).to_set().insert(s[j]),
{
    assert forall|x: u32| s.subrange(0, j + 1).to_set().contains(x)
        implies s.subrange(0, j).to_set().insert(s[j]).contains(x) by {
        let k = choose|k: int| 0 <= k < j + 1 && #[trigger] s.subrange(0, j + 1)[k] == x;
        if k < j {
            assert(s.subrange(0, j)[k] == x);
        }
    }
    assert forall|x: u32| s.subrange(0, j).to_set().insert(s[j]).contains(x)
        implies s.subrange(0, j + 1).to_set().contains(x) by {
        if s.subrange(0, j).to_set().contains(x) {
            let k = choose|k: int| 0 <= k < j && #[trigger] s.subrange(0, j)[k] == x;
            assert(s.subrange(0, j + 1)[k] == x);
        } else {
            assert(s.subrange(0, j + 1)[j] == x);
        }
    }
    assert(s.subrange(0, j + 1).to_set() =~= s.subrange(0, j).to_set().insert(s[j]));
}

/// A slot sequence frozen for a segment: every key to its stored vector,
/// a tombstone to the empty vector.
pub open spec fn frozen_map_of(slots: Seq<(u64, OverlayEntry)>) -> Map<u64, Seq<u32>>
    decreases slots.len(),
{
    if slots.len() == 0 {
        Map::empty()
    } else {
        let m = frozen_map_of(slots.drop_last());
        match slots.last().1 {
            OverlayEntry::Present(v) => m.insert(slots.last().0, v@),
            OverlayEntry::Deleted => m.insert(slots.last().0, Seq::empty()),
        }
    }
}

/// What freezing a distinct-keyed slot sequence yields: every key, with a
/// live slot's sorted non-empty vector, or a tombstone's empty vector.
pub proof fn lemma_frozen_map(slots: Seq<(u64, OverlayEntry)>)
    requires
        distinct_keys(slots),
        forall|i: int| 0 <= i < slots.len() ==> entry_wf(#[trigger] slots[i].1),
    ensures
        forall|h: u64| #[trigger] frozen_map_of(slots).dom().contains(h)
            <==> assoc_map(slots).dom().contains(h),
        forall|h: u64| #[trigger] frozen_map_of(slots).dom().contains(h) ==> {
            &&& sorted_strict(frozen_map_of(slots)[h])
            &&& (entry_view(assoc_map(slots)[h]) matches Some(s)
                ==> frozen_map_of(slots)[h].to_set() == s
                    && frozen_map_of(slots)[h].len() >= 1)
            &&& ((entry_view(assoc_map(slots)[h]) is None)
                ==> frozen_map_of(slots)[h] == Seq::<u32>::empty())
        },
    decreases slots.len(),
{
    if slots.len() > 0 {
        let head = slots.drop_last();
        assert(distinct_keys(head));
        assert(forall|i: int| 0 <= i < head.len() ==> entry_wf(#[trigger] head[i].1)) by {
            assert(forall|i: int| 0 <= i < head.len() ==> head[i] == slots[i]);
        }
        lemma_frozen_map(head);
        assert(entry_wf(slots.last().1)) by {
            assert(slots[slots.len() - 1].1 == slots.last().1);
        }
        assert(forall|i: int| 0 <= i < head.len() ==> #[trigger] head[i].0 != slots.last().0) by {
            assert(forall|i: int| 0 <= i < head.len() ==> head[i] == slots[i]);
        }
        lemma_assoc_absent(head, slots.last().0);
        let k0 = slots.last().0;
        assert(assoc_map(slots) == assoc_map(head).insert(k0, slots.last().1));
        let stored: Seq<u32> = match slots.last().1 {
            OverlayEntry::Present(v) => v@,
            OverlayEntry::Deleted => Seq::empty(),
        };
        assert(frozen_map_of(slots) == frozen_map_of(head).insert(k0, stored));
        assert forall|h: u64| #[trigger] frozen_map_of(slots).dom().contains(h) implies {
            &&& sorted_strict(frozen_map_of(slots)[h])
            &&& (entry_view(assoc_map(slots)[h]) matches Some(s)
                ==> frozen_map_of(slots)[h].to_set() == s
                    && frozen_map_of(slots)[h].len() >= 1)
            &&& ((entry_view(assoc_map(slots)[h]) is None)
                ==> frozen_map_of(slots)[h] == Seq::<u32>::empty())
        } by {
            if h == k0 {
                assert(frozen_map_of(slots)[h] == stored);
                assert(assoc_map(slots)[h] == slots.last().1);
                match slots.last().1 {
                    OverlayEntry::Present(v) => {
                        assert(v@.to_set().contains(v@[0]));
                    }
                    OverlayEntry::Deleted => {}
                }
            } else {
                assert(frozen_map_of(slots)[h] == frozen_map_of(head)[h]);
                assert(assoc_map(slots)[h] == assoc_map(head)[h]);
            }
        }
    }
}

/// What a slot holds after removing `shape_id` from key `h`: the shrunken
/// set while ids remain, else a tombstone.
pub open spec fn removed_entry(m: Map<u64, Option<Set<u32>>>, h: u64, shape_id: u32) -> Option<Set<u32>> {
    if m.dom().contains(h) && m[h] is Some {
        let s = m[h].unwrap().remove(shape_id);
        if s =~= Set::<u32>::empty() {
            None
        } else {
            Some(s)
        }
    } else {
        None
    }
}

} // verus!
