//! Lanes: independent partitions of the index. Each lane owns one mutable
//! overlay and a list of immutable segments ordered newest first; a lookup
//! probes the overlay, then the segments in order, and newer data shadows
//! older data.

use vstd::prelude::*;
use crate::hash::KeyHash;
use crate::overlay::{Overlay, OverlayEntry, present_at, removed_entry, frozen_map_of,
    lemma_frozen_map, entry_view};
use crate::segment::{Segment, entries_view};
use crate::assoc::{assoc_map, distinct_keys, lemma_assoc_absent, lemma_assoc_concat,
    lemma_assoc_push};
use crate::shape_set::{sorted_strict, union_shapes};
use vstd::string::StringExecFns;

verus! {

/// Which lane of the index a value belongs to.
pub type LaneId = u32;

/// The value the segment list alone gives a fingerprint: the stored id list
/// of the newest segment that holds it.
pub open spec fn seg_resolve(segs: Seq<Segment>, h: u64) -> Option<Seq<u32>>
    decreases segs.len(),
{
    if segs.len() == 0 {
        None
    } else if segs[0].view_map().dom().contains(h) {
        Some(segs[0].view_map()[h])
    } else {
        seg_resolve(segs.drop_first(), h)
    }
}

/// What a lookup yields from an overlay image over a segment list: a live
/// overlay slot wins, a tombstone hides everything older, and only an
/// untouched key falls through to the segments, where an empty stored
/// vector is a frozen tombstone and answers nothing.
pub open spec fn resolve_maps(
    om: Map<u64, Option<Set<u32>>>,
    segs: Seq<Segment>,
    h: u64,
) -> Option<Set<u32>> {
    if om.dom().contains(h) {
        om[h]
    } else {
        match seg_resolve(segs, h) {
            Some(v) => if v.len() == 0 {
                None
            } else {
                Some(v.to_set())
            },
            None => None,
        }
    }
}

/// Every stored id list of a segment is a well-formed shape-set; the empty
/// list is a tombstone that compaction froze out of an overlay.
pub open spec fn seg_values_wf(s: Segment) -> bool {
    forall|h: u64| #[trigger] s.view_map().dom().contains(h)
        ==> sorted_strict(s.view_map()[h])
}

/// The total number of fingerprints the segments hold, multiplicity across
/// segments included.
pub open spec fn spec_seg_entries(segs: Seq<Segment>) -> int
    decreases segs.len(),
{
    if segs.len() == 0 {
        0
    } else {
        spec_seg_entries(segs.drop_last()) + segs.last().view_map().dom().len()
    }
}

/// The map the segment list merges to: per fingerprint, the newest segment's
/// value.
pub open spec fn merged_map(segs: Seq<Segment>) -> Map<u64, Seq<u32>>
    decreases segs.len(),
{
    if segs.len() == 0 {
        Map::empty()
    } else {
        merged_map(segs.drop_first()).union_prefer_right(segs[0].view_map())
    }
}

/// The merged map without its tombstones: only the fingerprints whose
/// newest value still holds ids.
pub open spec fn drop_empty(m: Map<u64, Seq<u32>>) -> Map<u64, Seq<u32>> {
    Map::new(
        |h: u64| m.dom().contains(h) && m[h].len() > 0,
        |h: u64| m[h],
    )
}

/// The merged map answers exactly as newest-first probing does, and every
/// merged value is some segment's value.
pub proof fn lemma_merged_resolve(segs: Seq<Segment>)
    ensures
        forall|h: u64| #[trigger] merged_map(segs).dom().contains(h)
            <==> seg_resolve(segs, h) is Some,
        forall|h: u64| #[trigger] merged_map(segs).dom().contains(h)
            ==> merged_map(segs)[h] == seg_resolve(segs, h).unwrap(),
        forall|h: u64| #[trigger] merged_map(segs).dom().contains(h)
            ==> exists|k: int| 0 <= k < segs.len()
                && (#[trigger] segs[k]).view_map().dom().contains(h)
                && merged_map(segs)[h] == segs[k].view_map()[h],
    decreases segs.len(),
{
    if segs.len() > 0 {
        lemma_merged_resolve(segs.drop_first());
        assert forall|h: u64| #[trigger] merged_map(segs).dom().contains(h)
            implies seg_resolve(segs, h) is Some
                && merged_map(segs)[h] == seg_resolve(segs, h).unwrap() by {
            if !segs[0].view_map().dom().contains(h) {
                assert(merged_map(segs.drop_first()).dom().contains(h));
            }
        }
        assert forall|h: u64| seg_resolve(segs, h) is Some
            implies #[trigger] merged_map(segs).dom().contains(h) by {
            if !segs[0].view_map().dom().contains(h) {
                assert(merged_map(segs.drop_first()).dom().contains(h));
            }
        }
        assert forall|h: u64| #[trigger] merged_map(segs).dom().contains(h)
            implies exists|k: int| 0 <= k < segs.len()
                && (#[trigger] segs[k]).view_map().dom().contains(h)
                && merged_map(segs)[h] == segs[k].view_map()[h] by {
            if segs[0].view_map().dom().contains(h) {
                assert(segs[0].view_map().dom().contains(h)
                    && merged_map(segs)[h] == segs[0].view_map()[h]);
            } else {
                let k = choose|k: int| 0 <= k < segs.drop_first().len()
                    && (#[trigger] segs.drop_first()[k]).view_map().dom().contains(h)
                    && merged_map(segs.drop_first())[h] == segs.drop_first()[k].view_map()[h];
                assert(segs[k + 1].view_map().dom().contains(h)
                    && merged_map(segs)[h] == segs[k + 1].view_map()[h]);
            }
        }
    }
}

/// Whether some live overlay slot or some segment of the lane holds `id`.
pub open spec fn lane_holds_id(l: Lane, id: u32) -> bool {
    ||| exists|h: u64| {
        &&& #[trigger] l.spec_overlay_map().dom().contains(h)
        &&& l.spec_overlay_map()[h] is Some
        &&& l.spec_overlay_map()[h].unwrap().contains(id)
    }
    ||| exists|k: int, h: u64|
        #![trigger l.spec_segments()[k].view_map().dom().contains(h)]
    {
        &&& 0 <= k < l.spec_segments().len()
        &&& l.spec_segments()[k].view_map().dom().contains(h)
        &&& l.spec_segments()[k].view_map()[h].contains(id)
    }
}

/// Counts and sizes describing one lane.
#[derive(Debug, Clone, Copy, PartialEq, Eq, Structural)]
pub struct LaneStats {
    /// The lane's identifier.
    pub id: LaneId,
    /// Keys in the overlay, tombstones included.
    pub overlay_entries: usize,
    /// Number of segments.
    pub segment_count: usize,
    /// Fingerprints across all segments, pegged at `usize::MAX`.
    pub total_segment_entries: usize,
    /// Overlay keys plus segment fingerprints, pegged at `usize::MAX`.
    pub total_entries: usize,
}

/// One partition of the index: a mutable overlay over immutable segments.
#[derive(Debug)]
pub struct Lane {
    id: LaneId,
    overlay: Overlay,
    segments: Vec<Segment>,
    next_segment_id: u64,
}

impl Lane {
    /// The lane's identifier.
    pub closed spec fn spec_id(self) -> LaneId {
        self.id
    }

    /// The overlay as a map; see [`Overlay::view_map`].
    pub closed spec fn spec_overlay_map(self) -> Map<u64, Option<Set<u32>>> {
        self.overlay.view_map()
    }

    /// The segments, newest first.
    pub closed spec fn spec_segments(self) -> Seq<Segment> {
        self.segments@
    }

    /// The id the next segment built by this lane will carry.
    pub closed spec fn spec_next_segment_id(self) -> u64 {
        self.next_segment_id
    }

    /// What a lookup of `h` yields.
    pub open spec fn resolve(self, h: u64) -> Option<Set<u32>> {
        resolve_maps(self.spec_overlay_map(), self.spec_segments(), h)
    }

    /// The overlay is well formed, every segment is well formed with
    /// shape-set values, segment ids grow towards the front and stay below
    /// the next id, and levels never decrease towards the back.
    pub closed spec fn wf_core(self) -> bool {
        &&& self.overlay.wf()
        &&& forall|i: int| 0 <= i < self.segments@.len() ==> (#[trigger] self.segments@[i]).wf()
        &&& forall|i: int| 0 <= i < self.segments@.len()
            ==> seg_values_wf(#[trigger] self.segments@[i])
        &&& forall|i: int, j: int| 0 <= i < j < self.segments@.len()
            ==> self.segments@[i].spec_id() > self.segments@[j].spec_id()
        &&& forall|i: int| 0 <= i < self.segments@.len()
            ==> (#[trigger] self.segments@[i]).spec_id() < self.next_segment_id
        &&& forall|i: int, j: int| 0 <= i < j < self.segments@.len()
            ==> self.segments@[i].spec_level() <= self.segments@[j].spec_level()
    }

    /// Well-formed, and compaction has kept the lane at three segments or
    /// fewer.
    pub open spec fn wf(self) -> bool {
        self.wf_core() && self.spec_segments().len() <= 3
    }

    /// A fresh, empty lane.
    pub fn new(id: LaneId) -> (r: Self)
        ensures
            r.wf(),
            r.spec_id() == id,
            r.spec_overlay_map() == Map::<u64, Option<Set<u32>>>::empty(),
            r.spec_segments() == Seq::<Segment>::empty(),
            r.spec_next_segment_id() == 0,
            forall|h: u64| #[trigger] r.resolve(h) is None,
    {
        let r = Lane { id, overlay: Overlay::new(), segments: Vec::new(), next_segment_id: 0 };
        proof {
            assert(r.spec_segments() =~= Seq::<Segment>::empty());
        }
        r
    }

    /// Record that `hash` maps to `shape_id` as well.
    pub fn insert(&mut self, hash: KeyHash, shape_id: u32)
        requires
            old(self).wf(),
        ensures
            final(self).wf(),
            final(self).spec_id() == old(self).spec_id(),
            final(self).spec_segments() == old(self).spec_segments(),
            final(self).spec_next_segment_id() == old(self).spec_next_segment_id(),
            final(self).spec_overlay_map() == old(self).spec_overlay_map().insert(
                hash.0,
                Some(present_at(old(self).spec_overlay_map(), hash.0).insert(shape_id)),
            ),
    {
        self.overlay.insert(hash, shape_id);
    }

    /// Record that `hash` no longer maps to `shape_id`; an emptied or
    /// untouched key becomes a tombstone that shadows segment data.
    pub fn remove(&mut self, hash: KeyHash, shape_id: u32)
        requires
            old(self).wf(),
        ensures
            final(self).wf(),
            final(self).spec_id() == old(self).spec_id(),
            final(self).spec_segments() == old(self).spec_segments(),
            final(self).spec_next_segment_id() == old(self).spec_next_segment_id(),
            final(self).spec_overlay_map() == old(self).spec_overlay_map().insert(
                hash.0,
                removed_entry(old(self).spec_overlay_map(), hash.0, shape_id),
            ),
    {
        self.overlay.remove(hash, shape_id);
    }

    /// The ids `hash` maps to: the overlay's answer where it holds the key,
    /// else the newest segment's.
    pub fn lookup(&self, hash: KeyHash) -> (r: Option<Vec<u32>>)
        requires
            self.wf(),
        ensures
            match r {
                Some(ids) => {
                    &&& self.resolve(hash.0) is Some
                    &&& sorted_strict(ids@)
                    &&& ids@.to_set() == self.resolve(hash.0).unwrap()
                    &&& ids@.len() >= 1
                },
                None => self.resolve(hash.0) is None,
            },
    {
        if self.overlay.contains(hash) {
            return self.overlay.lookup(hash);
        }
        proof {
            assert(self.segments@.skip(0) =~= self.segments@);
        }
        let mut i: usize = 0;
        while i < self.segments.len()
            invariant
                i <= self.segments@.len(),
                self.wf(),
                !self.spec_overlay_map().dom().contains(hash.0),
                seg_resolve(self.segments@, hash.0)
                    == seg_resolve(self.segments@.skip(i as int), hash.0),
            decreases self.segments@.len() - i,
        {
            proof {
                assert(self.segments@.skip(i as int)[0] == self.segments@[i as int]);
                assert(self.segments@.skip(i as int).drop_first()
                    =~= self.segments@.skip(i + 1));
            }
            let found = self.segments[i].lookup(hash);
            if let Some(ids) = found {
                proof {
                    assert(seg_resolve(self.segments@.skip(i as int), hash.0)
                        == Some(self.segments@[i as int].view_map()[hash.0]));
                }
                if ids.len() == 0 {
                    return None;
                }
                return Some(ids);
            }
            i = i + 1;
        }
        proof {
            assert(self.segments@.skip(self.segments@.len() as int).len() == 0);
        }
        None
    }

    /// Keys in the overlay, tombstones included.
    pub fn overlay_size(&self) -> (r: usize)
        requires
            self.wf(),
        ensures
            r == self.spec_overlay_map().dom().len(),
    {
        self.overlay.len()
    }

    /// Fingerprints across all segments, pegged at `usize::MAX`.
    pub fn segment_size(&self) -> (r: usize)
        requires
            self.wf(),
        ensures
            r == if spec_seg_entries(self.spec_segments()) <= usize::MAX {
                spec_seg_entries(self.spec_segments())
            } else {
                usize::MAX as int
            },
    {
        let mut total: usize = 0;
        let mut i: usize = 0;
        while i < self.segments.len()
            invariant
                i <= self.segments@.len(),
                self.wf(),
                total == if spec_seg_entries(self.segments@.subrange(0, i as int)) <= usize::MAX {
                    spec_seg_entries(self.segments@.subrange(0, i as int))
                } else {
                    usize::MAX as int
                },
            decreases self.segments@.len() - i,
        {
            proof {
                assert(self.segments@.subrange(0, i + 1).drop_last()
                    =~= self.segments@.subrange(0, i as int));
                assert(self.segments@.subrange(0, i + 1).last() == self.segments@[i as int]);
            }
            let n = self.segments[i].len();
            total = total.saturating_add(n);
            i = i + 1;
        }
        proof {
            assert(self.segments@.subrange(0, self.segments@.len() as int) =~= self.segments@);
        }
        total
    }

    /// Number of segments.
    pub fn segment_count(&self) -> (r: usize)
        ensures
            r == self.spec_segments().len(),
    {
        self.segments.len()
    }

    /// Whether the lane holds nothing at all.
    pub fn is_empty(&self) -> (r: bool)
        requires
            self.wf(),
        ensures
            r == (self.spec_overlay_map().dom() == Set::<u64>::empty()
                && self.spec_segments().len() == 0),
    {
        self.overlay.is_empty() && self.segments.is_empty()
    }

    /// Every shape id the lane holds, in its overlay or any segment,
    /// ascending.
    pub fn all_shape_ids(&self) -> (r: Vec<u32>)
        requires
            self.wf(),
        ensures
            sorted_strict(r@),
            forall|id: u32| r@.to_set().contains(id) <==> lane_holds_id(*self, id),
    {
        let mut out = self.overlay.all_shape_ids();
        let mut i: usize = 0;
        while i < self.segments.len()
            invariant
                i <= self.segments@.len(),
                self.wf(),
                sorted_strict(out@),
                forall|id: u32| out@.to_set().contains(id) <==> {
                    ||| exists|h: u64| {
                        &&& #[trigger] self.spec_overlay_map().dom().contains(h)
                        &&& self.spec_overlay_map()[h] is Some
                        &&& self.spec_overlay_map()[h].unwrap().contains(id)
                    }
                    ||| exists|k: int, h: u64|
                        #![trigger self.spec_segments()[k].view_map().dom().contains(h)]
                    {
                        &&& 0 <= k < i
                        &&& self.spec_segments()[k].view_map().dom().contains(h)
                        &&& self.spec_segments()[k].view_map()[h].contains(id)
                    }
                },
            decreases self.segments@.len() - i,
        {
            let ghost pre = out@;
            let seg_ids = self.segments[i].all_shape_ids();
            union_shapes(&mut out, &seg_ids);
            proof {
                assert forall|id: u32| out@.to_set().contains(id) implies {
                    ||| exists|h: u64| {
                        &&& #[trigger] self.spec_overlay_map().dom().contains(h)
                        &&& self.spec_overlay_map()[h] is Some
                        &&& self.spec_overlay_map()[h].unwrap().contains(id)
                    }
                    ||| exists|k: int, h: u64|
                        #![trigger self.spec_segments()[k].view_map().dom().contains(h)]
                    {
                        &&& 0 <= k < i + 1
                        &&& self.spec_segments()[k].view_map().dom().contains(h)
                        &&& self.spec_segments()[k].view_map()[h].contains(id)
                    }
                } by {
                    if !pre.to_set().contains(id) {
                        assert(seg_ids@.to_set().contains(id));
                        let h = choose|h: u64| #[trigger] self.segments@[i as int].view_map().dom().contains(h)
                            && self.segments@[i as int].view_map()[h].contains(id);
                        assert(0 <= i < i + 1
                            && self.spec_segments()[i as int].view_map().dom().contains(h)
                            && self.spec_segments()[i as int].view_map()[h].contains(id));
                    }
                }
                assert forall|id: u32, k: int, h: u64|
                    #![trigger self.spec_segments()[k].view_map()[h].contains(id)]
                    0 <= k < i + 1
                        && self.spec_segments()[k].view_map().dom().contains(h)
                        && self.spec_segments()[k].view_map()[h].contains(id)
                    implies out@.to_set().contains(id) by {
                    if k < i {
                        assert(pre.to_set().contains(id));
                    } else {
                        assert(seg_ids@.to_set().contains(id));
                    }
                }
            }
            i = i + 1;
        }
        out
    }

    /// Freeze the overlay into a new level-0 segment — tombstones included,
    /// as empty id lists, so they keep shadowing older segments — drop the
    /// overlay, prepend the segment, and merge the segments down to one once
    /// more than three have piled up. Every lookup answers as before. Fails
    /// only when the lane has no segment ids left to assign, and then
    /// changes nothing.
    pub fn compact(&mut self) -> (r: Result<(), String>)
        requires
            old(self).wf(),
        ensures
            final(self).spec_id() == old(self).spec_id(),
            r is Ok ==> {
                &&& final(self).wf()
                &&& final(self).spec_overlay_map() == Map::<u64, Option<Set<u32>>>::empty()
                &&& old(self).spec_next_segment_id() <= final(self).spec_next_segment_id()
                &&& final(self).spec_next_segment_id()
                    <= old(self).spec_next_segment_id() + 2
                &&& forall|h: u64| #[trigger] final(self).resolve(h) == old(self).resolve(h)
            },
            r is Err ==> {
                &&& *final(self) == *old(self)
                &&& old(self).spec_next_segment_id() >= u64::MAX - 1
            },
            r is Err ==> old(self).spec_overlay_map().dom() != Set::<u64>::empty(),
    {
        let ghost pre = *self;
        if self.overlay.is_empty() {
            proof {
                let om = self.spec_overlay_map();
                assert(om =~= Map::<u64, Option<Set<u32>>>::empty());
            }
            return Ok(());
        }
        if self.next_segment_id >= u64::MAX - 1 {
            return Err(String::from_str("segment id space exhausted"));
        }
        let segment_id = self.next_segment_id;
        self.next_segment_id = self.next_segment_id + 1;

        let slots = self.overlay.iter();
        let mut collected: Vec<(KeyHash, Vec<u32>)> = Vec::new();
        let mut i: usize = 0;
        while i < slots.len()
            invariant
                i <= slots@.len(),
                assoc_map(entries_view(collected@))
                    == frozen_map_of(slots@.subrange(0, i as int)),
            decreases slots@.len() - i,
        {
            let ghost prefix = slots@.subrange(0, i as int);
            let ghost cv = entries_view(collected@);
            proof {
                assert(slots@.subrange(0, i + 1).drop_last() =~= prefix);
                assert(slots@.subrange(0, i + 1).last() == slots@[i as int]);
            }
            let key = KeyHash(slots[i].0);
            match &slots[i].1 {
                OverlayEntry::Present(ids) => {
                    let copy = vstd::slice::slice_to_vec(ids.as_slice());
                    collected.push((key, copy));
                    proof {
                        assert(entries_view(collected@) =~= cv.push((key.0, copy@)));
                        assert(entries_view(collected@).drop_last() =~= cv);
                        assert(assoc_map(entries_view(collected@))
                            == assoc_map(cv).insert(key.0, copy@));
                        assert(slots@[i as int].1 matches OverlayEntry::Present(v) && v@ == copy@);
                        assert(frozen_map_of(slots@.subrange(0, i + 1))
                            == frozen_map_of(prefix).insert(slots@[i as int].0, copy@));
                    }
                }
                OverlayEntry::Deleted => {
                    let copy: Vec<u32> = Vec::new();
                    collected.push((key, copy));
                    proof {
                        assert(entries_view(collected@) =~= cv.push((key.0, copy@)));
                        assert(entries_view(collected@).drop_last() =~= cv);
                        assert(assoc_map(entries_view(collected@))
                            == assoc_map(cv).insert(key.0, copy@));
                        assert(copy@ =~= Seq::<u32>::empty());
                        assert(frozen_map_of(slots@.subrange(0, i + 1))
                            == frozen_map_of(prefix).insert(
                                slots@[i as int].0,
                                Seq::<u32>::empty(),
                            ));
                    }
                }
            }
            i = i + 1;
        }
        let ghost sv = slots@;
        proof {
            assert(sv.subrange(0, sv.len() as int) =~= sv);
            lemma_frozen_map(sv);
        }
        let new_segment = Segment::new(segment_id, 0, collected);
        self.overlay.clear();
        self.segments.insert(0, new_segment);
        proof {
            let om = pre.spec_overlay_map();
            let fm = frozen_map_of(sv);
            let segs1 = self.segments@;
            assert(segs1 =~= seq![new_segment] + pre.spec_segments());
            assert(segs1.drop_first() =~= pre.spec_segments());
            assert(segs1[0] == new_segment);
            assert forall|k: int| 1 <= k < segs1.len()
                implies segs1[k] == pre.spec_segments()[k - 1] by {}
            assert(self.wf_core()) by {
                assert forall|a: int, b: int| 0 <= a < b < segs1.len()
                    implies segs1[a].spec_id() > segs1[b].spec_id() by {
                    if a == 0 {
                        assert(segs1[b].spec_id() < pre.spec_next_segment_id());
                    }
                }
                assert forall|a: int, b: int| 0 <= a < b < segs1.len()
                    implies segs1[a].spec_level() <= segs1[b].spec_level() by {
                    if a == 0 {
                        assert(segs1[a].spec_level() == 0);
                    }
                }
            }
            assert(new_segment.view_map() == fm);
            assert(seg_values_wf(new_segment)) by {
                assert forall|h: u64| #[trigger] new_segment.view_map().dom().contains(h)
                    implies sorted_strict(new_segment.view_map()[h]) by {
                    assert(fm.dom().contains(h));
                }
            }
            assert(om == Map::new(
                |h: u64| assoc_map(sv).dom().contains(h),
                |h: u64| entry_view(assoc_map(sv)[h]),
            ));
            assert forall|h: u64| #[trigger] self.resolve(h) == pre.resolve(h) by {
                assert(!self.spec_overlay_map().dom().contains(h));
                if om.dom().contains(h) {
                    assert(assoc_map(sv).dom().contains(h));
                    assert(fm.dom().contains(h));
                    assert(new_segment.view_map().dom().contains(h));
                    assert(seg_resolve(segs1, h) == Some(fm[h]));
                    assert(om[h] == entry_view(assoc_map(sv)[h]));
                    if om[h] is Some {
                        assert(fm[h].to_set() == om[h].unwrap() && fm[h].len() >= 1);
                    } else {
                        assert(fm[h] == Seq::<u32>::empty());
                    }
                } else {
                    assert(!assoc_map(sv).dom().contains(h));
                    assert(!fm.dom().contains(h));
                    assert(!new_segment.view_map().dom().contains(h));
                    assert(seg_resolve(segs1, h) == seg_resolve(pre.spec_segments(), h));
                }
            }
        }
        if self.segments.len() > 3 {
            let ghost mid = *self;
            self.merge_segments();
            proof {
                assert forall|h: u64| #[trigger] self.resolve(h) == pre.resolve(h) by {
                    assert(mid.resolve(h) == pre.resolve(h));
                }
            }
        }
        Ok(())
    }

    /// Fold every segment into a single level-1 segment that keeps, for
    /// each fingerprint, the newest segment's value, and drops the
    /// fingerprints whose newest value is a tombstone: with nothing older
    /// left to shadow, a tombstone has no further work to do.
    fn merge_segments(&mut self)
        requires
            old(self).wf_core(),
            old(self).spec_next_segment_id() < u64::MAX,
            old(self).spec_overlay_map() == Map::<u64, Option<Set<u32>>>::empty(),
        ensures
            final(self).wf(),
            final(self).spec_id() == old(self).spec_id(),
            final(self).spec_overlay_map() == old(self).spec_overlay_map(),
            final(self).spec_segments().len() <= 1,
            final(self).spec_next_segment_id() == old(self).spec_next_segment_id() + 1,
            forall|h: u64| #[trigger] final(self).resolve(h) == old(self).resolve(h),
    {
        let ghost pre = *self;
        let merged_id = self.next_segment_id;
        self.next_segment_id = self.next_segment_id + 1;

        let mut collected: Vec<(KeyHash, Vec<u32>)> = Vec::new();
        let mut i: usize = self.segments.len();
        while i > 0
            invariant
                i <= self.segments@.len(),
                self.wf_core(),
                assoc_map(entries_view(collected@))
                    == merged_map(self.segments@.skip(i as int)),
            decreases i,
        {
            i = i - 1;
            let ghost cv0 = entries_view(collected@);
            let data = self.segments[i].iter();
            let mut j: usize = 0;
            while j < data.len()
                invariant
                    j <= data@.len(),
                    entries_view(collected@) =~= cv0 + entries_of_pairs(data@.subrange(0, j as int)),
                decreases data@.len() - j,
            {
                let ghost cj = entries_view(collected@);
                let key = KeyHash(data[j].0);
                let copy = vstd::slice::slice_to_vec(data[j].1.as_slice());
                collected.push((key, copy));
                proof {
                    assert(entries_view(collected@) =~= cj.push((key.0, copy@)));
                    assert(entries_of_pairs(data@.subrange(0, j + 1))
                        =~= entries_of_pairs(data@.subrange(0, j as int)).push((key.0, copy@)));
                    assert(entries_view(collected@)
                        =~= cv0 + entries_of_pairs(data@.subrange(0, j + 1)));
                }
                j = j + 1;
            }
            proof {
                assert(data@.subrange(0, data@.len() as int) =~= data@);
                lemma_entries_of_pairs(data@);
                lemma_assoc_concat(cv0, entries_of_pairs(data@));
                assert(entries_view(collected@) =~= cv0 + entries_of_pairs(data@));
                assert(assoc_map(entries_of_pairs(data@)) =~= self.segments@[i as int].view_map());
                assert(self.segments@.skip(i as int)[0] == self.segments@[i as int]);
                assert(self.segments@.skip(i as int).drop_first() =~= self.segments@.skip(i + 1));
                assert(assoc_map(entries_view(collected@))
                    =~= merged_map(self.segments@.skip(i as int)));
            }
        }
        proof {
            assert(self.segments@.skip(0) =~= self.segments@);
        }
        let ghost mm = merged_map(pre.spec_segments());
        let folded = Segment::new(0, 1, collected);
        let data = folded.iter();
        proof {
            assert(data@.subrange(0, data@.len() as int) =~= data@);
            lemma_entries_of_pairs(data@);
            assert(assoc_map(entries_of_pairs(data@)) =~= folded.view_map());
            assert(folded.view_map() =~= mm);
        }
        let mut filtered: Vec<(KeyHash, Vec<u32>)> = Vec::new();
        let mut j: usize = 0;
        while j < data.len()
            invariant
                j <= data@.len(),
                distinct_keys(data@),
                assoc_map(entries_of_pairs(data@)) == mm,
                distinct_keys(entries_view(filtered@)),
                assoc_map(entries_view(filtered@))
                    == drop_empty(assoc_map(entries_of_pairs(data@.subrange(0, j as int)))),
                forall|k: int| 0 <= k < filtered@.len()
                    ==> exists|l: int| 0 <= l < j && (#[trigger] filtered@[k]).0.0 == data@[l].0,
            decreases data@.len() - j,
        {
            let ghost prefix = entries_of_pairs(data@.subrange(0, j as int));
            let ghost fv = entries_view(filtered@);
            let ghost ap = assoc_map(prefix);
            proof {
                assert(distinct_keys(prefix)) by {
                    assert forall|a: int, b: int| 0 <= a < b < prefix.len()
                        implies (#[trigger] prefix[a]).0 != (#[trigger] prefix[b]).0 by {
                        assert(prefix[a].0 == data@[a].0 && prefix[b].0 == data@[b].0);
                    }
                }
                assert forall|k: int| 0 <= k < prefix.len()
                    implies (#[trigger] prefix[k]).0 != data@[j as int].0 by {
                    assert(prefix[k].0 == data@[k].0);
                }
                lemma_assoc_absent(prefix, data@[j as int].0);
                lemma_assoc_push(prefix, data@[j as int].0, data@[j as int].1@);
                assert(entries_of_pairs(data@.subrange(0, j + 1))
                    =~= prefix.push((data@[j as int].0, data@[j as int].1@)));
                assert forall|k: int| 0 <= k < fv.len()
                    implies (#[trigger] fv[k]).0 != data@[j as int].0 by {
                    assert(fv[k].0 == filtered@[k].0.0);
                    let l = choose|l: int| 0 <= l < j && filtered@[k].0.0 == data@[l].0;
                    assert(data@[l].0 != data@[j as int].0);
                }
            }
            let key = KeyHash(data[j].0);
            if data[j].1.len() > 0 {
                let copy = vstd::slice::slice_to_vec(data[j].1.as_slice());
                filtered.push((key, copy));
                proof {
                    assert(entries_view(filtered@) =~= fv.push((key.0, copy@)));
                    lemma_assoc_push(fv, key.0, copy@);
                    assert(drop_empty(ap.insert(key.0, copy@))
                        =~= drop_empty(ap).insert(key.0, copy@));
                }
            } else {
                proof {
                    assert(data@[j as int].1@.len() == 0);
                    assert(drop_empty(ap.insert(data@[j as int].0, data@[j as int].1@))
                        =~= drop_empty(ap)) by {
                        assert(!ap.dom().contains(data@[j as int].0));
                    }
                }
            }
            j = j + 1;
        }
        proof {
            assert(data@.subrange(0, data@.len() as int) =~= data@);
        }
        let merged = Segment::new(merged_id, 1, filtered);
        self.segments.clear();
        self.segments.push(merged);
        proof {
            lemma_merged_resolve(pre.spec_segments());
            assert(self.spec_overlay_map() == pre.spec_overlay_map());
            assert(merged.view_map() == drop_empty(mm));
            assert(self.segments@[0] == merged);
            assert(seg_values_wf(merged)) by {
                assert forall|h: u64| #[trigger] merged.view_map().dom().contains(h)
                    implies sorted_strict(merged.view_map()[h]) by {
                    assert(mm.dom().contains(h) && merged.view_map()[h] == mm[h]);
                    let k = choose|k: int| 0 <= k < pre.spec_segments().len()
                        && (#[trigger] pre.spec_segments()[k]).view_map().dom().contains(h)
                        && mm[h] == pre.spec_segments()[k].view_map()[h];
                    assert(seg_values_wf(pre.spec_segments()[k]));
                }
            }
            assert forall|h: u64| #[trigger] self.resolve(h) == pre.resolve(h) by {
                assert(!pre.spec_overlay_map().dom().contains(h));
                assert(!self.spec_overlay_map().dom().contains(h));
                assert(self.segments@.drop_first().len() == 0);
                if merged.view_map().dom().contains(h) {
                    assert(seg_resolve(self.segments@, h) == Some(merged.view_map()[h]));
                    assert(mm.dom().contains(h) && mm[h].len() > 0);
                    assert(seg_resolve(pre.spec_segments(), h) == Some(mm[h]));
                } else {
                    assert(seg_resolve(self.segments@, h)
                        == seg_resolve(self.segments@.drop_first(), h));
                    assert(seg_resolve(self.segments@.drop_first(), h) is None);
                    if mm.dom().contains(h) {
                        assert(mm[h].len() == 0);
                        assert(seg_resolve(pre.spec_segments(), h) == Some(mm[h]));
                        assert(pre.resolve(h) is None);
                    } else {
                        assert(seg_resolve(pre.spec_segments(), h) is None);
                    }
                    assert(self.resolve(h) is None);
                }
            }
        }
    }

    /// A snapshot of the lane's sizes.
    pub fn stats(&self) -> (r: LaneStats)
        requires
            self.wf(),
        ensures
            r.id == self.spec_id(),
            r.overlay_entries == self.spec_overlay_map().dom().len(),
            r.segment_count == self.spec_segments().len(),
            r.total_segment_entries == if spec_seg_entries(self.spec_segments()) <= usize::MAX {
                spec_seg_entries(self.spec_segments())
            } else {
                usize::MAX as int
            },
            r.total_entries == if self.spec_overlay_map().dom().len()
                + r.total_segment_entries <= usize::MAX {
                self.spec_overlay_map().dom().len() + r.total_segment_entries
            } else {
                usize::MAX as int
            },
    {
        let overlay_entries = self.overlay.len();
        let total_segment_entries = self.segment_size();
        LaneStats {
            id: self.id,
            overlay_entries,
            segment_count: self.segments.len(),
            total_segment_entries,
            total_entries: overlay_entries.saturating_add(total_segment_entries),
        }
    }
}

/// Segment entries as fingerprint/id-sequence pairs.
pub open spec fn entries_of_pairs(s: Seq<(u64, Vec<u32>)>) -> Seq<(u64, Seq<u32>)> {
    s.map_values(|p: (u64, Vec<u32>)| (p.0, p.1@))
}

/// Folding a segment's raw pairs yields the segment's own map.
proof fn lemma_entries_of_pairs(s: Seq<(u64, Vec<u32>)>)
    ensures
        forall|h: u64| #[trigger] assoc_map(entries_of_pairs(s)).dom().contains(h)
            <==> assoc_map(s).dom().contains(h),
        forall|h: u64| #[trigger] assoc_map(entries_of_pairs(s)).dom().contains(h)
            ==> assoc_map(entries_of_pairs(s))[h] == assoc_map(s)[h]@,
    decreases s.len(),
{
    if s.len() > 0 {
        lemma_entries_of_pairs(s.drop_last());
        assert(entries_of_pairs(s).drop_last() =~= entries_of_pairs(s.drop_last()));
        assert(entries_of_pairs(s).last() == (s.last().0, s.last().1@));
        assert(assoc_map(entries_of_pairs(s))
            == assoc_map(entries_of_pairs(s.drop_last())).insert(s.last().0, s.last().1@));
        assert(assoc_map(s) == assoc_map(s.drop_last()).insert(s.last().0, s.last().1));
        assert forall|h: u64| #[trigger] assoc_map(entries_of_pairs(s)).dom().contains(h)
            implies assoc_map(s).dom().contains(h)
                && assoc_map(entries_of_pairs(s))[h] == assoc_map(s)[h]@ by {
            if h != s.last().0 {
                assert(assoc_map(entries_of_pairs(s.drop_last())).dom().contains(h));
            }
        }
        assert forall|h: u64| assoc_map(s).dom().contains(h)
            implies #[trigger] assoc_map(entries_of_pairs(s)).dom().contains(h) by {
            if h != s.last().0 {
                assert(assoc_map(s.drop_last()).dom().contains(h));
            }
        }
    }
}


/// After recording that `h` maps to `s`, a lookup of `h` answers a set that
/// contains `s`, whatever the segments hold.
pub proof fn lemma_insert_then_lookup(
    om: Map<u64, Option<Set<u32>>>,
    segs: Seq<Segment>,
    h: u64,
    s: u32,
)
    ensures
        resolve_maps(
            om.insert(h, Some(present_at(om, h).insert(s))),
            segs,
            h,
        ) matches Some(ids) && ids.contains(s),
{
    let om2 = om.insert(h, Some(present_at(om, h).insert(s)));
    assert(om2.dom().contains(h));
    assert(om2[h] == Some(present_at(om, h).insert(s)));
}

/// Inserting `s` under a key the overlay does not otherwise hold and then
/// removing it leaves a tombstone: a lookup answers nothing, even where an
/// older segment still holds the key.
pub proof fn lemma_insert_remove_then_lookup(
    om: Map<u64, Option<Set<u32>>>,
    segs: Seq<Segment>,
    h: u64,
    s: u32,
)
    requires
        present_at(om, h) == Set::<u32>::empty(),
    ensures
        ({
            let om1 = om.insert(h, Some(present_at(om, h).insert(s)));
            let om2 = om1.insert(h, removed_entry(om1, h, s));
            resolve_maps(om2, segs, h) is None
        }),
{
    let om1 = om.insert(h, Some(present_at(om, h).insert(s)));
    let om2 = om1.insert(h, removed_entry(om1, h, s));
    assert(om1[h] == Some(Set::<u32>::empty().insert(s)));
    assert(om1[h].unwrap().remove(s) =~= Set::<u32>::empty());
    assert(removed_entry(om1, h, s) is None);
    assert(om2.dom().contains(h));
}

} // verus!
