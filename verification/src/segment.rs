//! Immutable segments: read-only fingerprint → shape-id bundles written by
//! compaction. A lookup never mutates a segment; only a later merge replaces
//! it.

use vstd::prelude::*;
use crate::assoc::{assoc_map, distinct_keys, assoc_find, lemma_assoc_index, lemma_assoc_absent,
    lemma_assoc_member, lemma_assoc_dom_len, lemma_assoc_update, lemma_assoc_push};
use crate::hash::KeyHash;
use crate::shape_set::{sorted_strict, union_shapes};

verus! {

/// The entry list as fingerprint/id-sequence pairs.
pub open spec fn entries_view(s: Seq<(KeyHash, Vec<u32>)>) -> Seq<(u64, Seq<u32>)> {
    s.map_values(|p: (KeyHash, Vec<u32>)| (p.0.0, p.1@))
}

/// An immutable map from fingerprint to shape-id list.
#[derive(Debug)]
pub struct Segment {
    id: u64,
    level: u32,
    data: Vec<(u64, Vec<u32>)>,
}

impl Segment {
    /// The mapping the segment holds.
    pub closed spec fn view_map(self) -> Map<u64, Seq<u32>> {
        Map::new(
            |h: u64| assoc_map(self.data@).dom().contains(h),
            |h: u64| assoc_map(self.data@)[h]@,
        )
    }

    /// Fingerprints are distinct.
    pub closed spec fn wf(self) -> bool {
        distinct_keys(self.data@)
    }

    pub closed spec fn spec_id(self) -> u64 {
        self.id
    }

    pub closed spec fn spec_level(self) -> u32 {
        self.level
    }

    /// Build a segment from fingerprint/id-list pairs; a repeated fingerprint
    /// keeps the later pair.
    pub fn new(id: u64, level: u32, entries: Vec<(KeyHash, Vec<u32>)>) -> (r: Self)
        ensures
            r.wf(),
            r.view_map() == assoc_map(entries_view(entries@)),
            r.spec_id() == id,
            r.spec_level() == level,
    {
        let ghost full = entries_view(entries@);
        let mut data: Vec<(u64, Vec<u32>)> = Vec::with_capacity(entries.len());
        let mut i: usize = 0;
        while i < entries.len()
            invariant
                i <= entries@.len(),
                full == entries_view(entries@),
                distinct_keys(data@),
                Map::new(
                    |h: u64| assoc_map(data@).dom().contains(h),
                    |h: u64| assoc_map(data@)[h]@,
                ) == assoc_map(full.subrange(0, i as int)),
            decreases entries@.len() - i,
        {
            let ghost d0 = data@;
            let ghost prefix = full.subrange(0, i as int);
            let key = entries[i].0.value();
            let ids = vstd::slice::slice_to_vec(entries[i].1.as_slice());
            assert(full[i as int] == (key, ids@));
            match assoc_find(&data, key) {
                Some(j) => {
                    proof {
                        lemma_assoc_index(d0, j as int);
                        lemma_assoc_update(d0, j as int, ids);
                    }
                    data.set(j, (key, ids));
                }
                None => {
                    proof {
                        lemma_assoc_absent(d0, key);
                        lemma_assoc_push(d0, key, ids);
                    }
                    data.push((key, ids));
                }
            }
            proof {
                assert(full.subrange(0, i + 1).drop_last() =~= prefix);
                assert(full.subrange(0, i + 1).last() == (key, ids@));
                assert(assoc_map(full.subrange(0, i + 1))
                    == assoc_map(prefix).insert(key, ids@));
                assert(assoc_map(data@) == assoc_map(d0).insert(key, ids));
                assert(Map::new(
                    |h: u64| assoc_map(data@).dom().contains(h),
                    |h: u64| assoc_map(data@)[h]@,
                ) =~= assoc_map(full.subrange(0, i + 1)));
            }
            i = i + 1;
        }
        proof {
            assert(full.subrange(0, full.len() as int) =~= full);
        }
        Segment { id, level, data }
    }

    /// The id list stored for a fingerprint, or `None`.
    pub fn lookup(&self, hash: KeyHash) -> (r: Option<Vec<u32>>)
        requires
            self.wf(),
        ensures
            match r {
                Some(ids) => self.view_map().dom().contains(hash.0)
                    && ids@ == self.view_map()[hash.0],
                None => !self.view_map().dom().contains(hash.0),
            },
    {
        match assoc_find(&self.data, hash.0) {
            Some(i) => {
                proof {
                    lemma_assoc_index(self.data@, i as int);
                }
                Some(vstd::slice::slice_to_vec(self.data[i].1.as_slice()))
            }
            None => {
                proof {
                    lemma_assoc_absent(self.data@, hash.0);
                }
                None
            }
        }
    }

    /// Whether the segment holds the fingerprint.
    pub fn contains(&self, hash: KeyHash) -> (r: bool)
        requires
            self.wf(),
        ensures
            r == self.view_map().dom().contains(hash.0),
    {
        match assoc_find(&self.data, hash.0) {
            Some(i) => {
                proof {
                    lemma_assoc_index(self.data@, i as int);
                }
                true
            }
            None => {
                proof {
                    lemma_assoc_absent(self.data@, hash.0);
                }
                false
            }
        }
    }

    /// How many fingerprints the segment holds.
    pub fn len(&self) -> (r: usize)
        requires
            self.wf(),
        ensures
            r == self.view_map().dom().len(),
    {
        proof {
            lemma_assoc_dom_len(self.data@);
            assert(self.view_map().dom() =~= assoc_map(self.data@).dom());
        }
        self.data.len()
    }

    /// Whether the segment holds no fingerprint.
    pub fn is_empty(&self) -> (r: bool)
        requires
            self.wf(),
        ensures
            r == (self.view_map().dom() == Set::<u64>::empty()),
    {
        proof {
            if self.data@.len() > 0 {
                lemma_assoc_index(self.data@, 0);
                assert(self.view_map().dom().contains(self.data@[0].0));
            } else {
                assert(self.view_map().dom() =~= Set::<u64>::empty());
            }
        }
        self.data.is_empty()
    }

    /// The segment's monotonically assigned id.
    pub fn id(&self) -> (r: u64)
        ensures
            r == self.spec_id(),
    {
        self.id
    }

    /// The segment's level; zero is newest.
    pub fn level(&self) -> (r: u32)
        ensures
            r == self.spec_level(),
    {
        self.level
    }

    /// Every shape id some fingerprint of this segment maps to, ascending.
    pub fn all_shape_ids(&self) -> (r: Vec<u32>)
        requires
            self.wf(),
        ensures
            sorted_strict(r@),
            forall|id: u32| r@.to_set().contains(id) <==> exists|h: u64|
                #[trigger] self.view_map().dom().contains(h) && self.view_map()[h].contains(id),
    {
        let mut out: Vec<u32> = Vec::new();
        let mut i: usize = 0;
        while i < self.data.len()
            invariant
                i <= self.data@.len(),
                self.wf(),
                sorted_strict(out@),
                forall|id: u32| out@.to_set().contains(id) <==> exists|k: int|
                    #![trigger self.data@[k].1@.to_set().contains(id)]
                    0 <= k < i && self.data@[k].1@.to_set().contains(id),
            decreases self.data@.len() - i,
        {
            let ghost pre = out@;
            union_shapes(&mut out, &self.data[i].1);
            proof {
                assert forall|id: u32| out@.to_set().contains(id) implies exists|k: int|
                    #![trigger self.data@[k].1@.to_set().contains(id)]
                    0 <= k < i + 1 && self.data@[k].1@.to_set().contains(id) by {
                    if pre.to_set().contains(id) {
                        let k = choose|k: int|
                            0 <= k < i && #[trigger] self.data@[k].1@.to_set().contains(id);
                        assert(self.data@[k].1@.to_set().contains(id));
                    } else {
                        assert(self.data@[i as int].1@.to_set().contains(id));
                    }
                }
            }
            i = i + 1;
        }
        proof {
            assert forall|id: u32| out@.to_set().contains(id) implies exists|h: u64|
                #[trigger] self.view_map().dom().contains(h) && self.view_map()[h].contains(id) by {
                let k = choose|k: int|
                    0 <= k < self.data@.len() && #[trigger] self.data@[k].1@.to_set().contains(id);
                lemma_assoc_index(self.data@, k);
                assert(self.view_map().dom().contains(self.data@[k].0));
                assert(self.view_map()[self.data@[k].0] == self.data@[k].1@);
                assert(self.data@[k].1@.contains(id));
            }
            assert forall|id: u32| (exists|h: u64|
                #[trigger] self.view_map().dom().contains(h) && self.view_map()[h].contains(id))
                implies out@.to_set().contains(id) by {
                let h = choose|h: u64|
                    #[trigger] self.view_map().dom().contains(h) && self.view_map()[h].contains(id);
                lemma_assoc_member(self.data@, h);
                let k = choose|k: int| 0 <= k < self.data@.len() && self.data@[k].0 == h;
                lemma_assoc_index(self.data@, k);
                assert(self.data@[k].1@.to_set().contains(id));
            }
        }
        out
    }

    /// A coarse estimate of the segment's memory footprint in bytes, pegged
    /// at `usize::MAX`: a fixed header, a fixed cost per entry, and four
    /// bytes per stored shape id.
    pub fn memory_bytes(&self) -> (r: usize)
        requires
            self.wf(),
    {
        let mut total: usize = 48;
        let mut i: usize = 0;
        while i < self.data.len()
            invariant
                i <= self.data@.len(),
            decreases self.data@.len() - i,
        {
            let ids = self.data[i].1.len();
            let per = if ids < usize::MAX / 4 { 32usize.saturating_add(ids * 4) } else { usize::MAX };
            total = total.saturating_add(per);
            i = i + 1;
        }
        total
    }

    /// The raw entries, for merging segments.
    pub fn iter(&self) -> (r: &Vec<(u64, Vec<u32>)>)
        requires
            self.wf(),
        ensures
            distinct_keys(r@),
            self.view_map().dom() == assoc_map(r@).dom(),
            self.view_map() == Map::new(
                |h: u64| assoc_map(r@).dom().contains(h),
                |h: u64| assoc_map(r@)[h]@,
            ),
            forall|i: int| 0 <= i < r@.len() ==> {
                &&& #[trigger] self.view_map().dom().contains(r@[i].0)
                &&& self.view_map()[r@[i].0] == r@[i].1@
            },
            forall|h: u64| #[trigger] self.view_map().dom().contains(h)
                ==> exists|i: int| 0 <= i < r@.len() && r@[i].0 == h,
    {
        proof {
            assert(self.view_map().dom() =~= assoc_map(self.data@).dom());
            assert forall|i: int| 0 <= i < self.data@.len() implies {
                &&& self.view_map().dom().contains(#[trigger] self.data@[i].0)
                &&& self.view_map()[self.data@[i].0] == self.data@[i].1@
            } by {
                lemma_assoc_index(self.data@, i);
            }
            assert forall|h: u64| #[trigger] self.view_map().dom().contains(h)
                implies exists|i: int| 0 <= i < self.data@.len() && self.data@[i].0 == h by {
                lemma_assoc_member(self.data@, h);
            }
        }
        &self.data
    }
}

/// Collects fingerprint/id-list pairs and builds a segment from them.
pub struct SegmentBuilder {
    id: u64,
    level: u32,
    entries: Vec<(KeyHash, Vec<u32>)>,
}

impl SegmentBuilder {
    pub closed spec fn spec_id(self) -> u64 {
        self.id
    }

    pub closed spec fn spec_level(self) -> u32 {
        self.level
    }

    /// The pairs added so far, in order.
    pub closed spec fn spec_entries(self) -> Seq<(u64, Seq<u32>)> {
        entries_view(self.entries@)
    }

    /// A builder for a segment with the given id and level.
    pub fn new(id: u64, level: u32) -> (r: Self)
        ensures
            r.spec_id() == id,
            r.spec_level() == level,
            r.spec_entries() == Seq::<(u64, Seq<u32>)>::empty(),
    {
        let r = SegmentBuilder { id, level, entries: Vec::new() };
        proof {
            assert(r.spec_entries() =~= Seq::<(u64, Seq<u32>)>::empty());
        }
        r
    }

    /// Append one pair; a repeat of a fingerprint overrides at build time.
    pub fn add(&mut self, hash: KeyHash, shape_ids: Vec<u32>)
        ensures
            final(self).spec_id() == old(self).spec_id(),
            final(self).spec_level() == old(self).spec_level(),
            final(self).spec_entries() == old(self).spec_entries().push((hash.0, shape_ids@)),
    {
        let ghost before = self.spec_entries();
        self.entries.push((hash, shape_ids));
        proof {
            assert(self.spec_entries() =~= before.push((hash.0, shape_ids@)));
        }
    }

    /// Turn the collected pairs into a segment.
    pub fn build(self) -> (r: Segment)
        ensures
            r.wf(),
            r.view_map() == assoc_map(self.spec_entries()),
            r.spec_id() == self.spec_id(),
            r.spec_level() == self.spec_level(),
    {
        Segment::new(self.id, self.level, self.entries)
    }

    /// How many pairs were added.
    pub fn len(&self) -> (r: usize)
        ensures
            r == self.spec_entries().len(),
    {
        self.entries.len()
    }

    /// Whether no pair was added yet.
    pub fn is_empty(&self) -> (r: bool)
        ensures
            r == (self.spec_entries().len() == 0),
    {
        self.entries.is_empty()
    }
}


/// Building a segment from pairs with distinct fingerprints and looking
/// each fingerprint up returns exactly the id list it was built with.
pub proof fn lemma_build_then_lookup(entries: Seq<(KeyHash, Vec<u32>)>, i: int)
    requires
        distinct_keys(entries_view(entries)),
        0 <= i < entries.len(),
    ensures
        assoc_map(entries_view(entries)).dom().contains(entries[i].0.0),
        assoc_map(entries_view(entries))[entries[i].0.0] == entries[i].1@,
{
    assert(entries_view(entries)[i] == (entries[i].0.0, entries[i].1@));
    lemma_assoc_index(entries_view(entries), i);
}

} // verus!
