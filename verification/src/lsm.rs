//! The lane-partitioned equality index: N independent lanes and a manifest.
//! A key is fingerprinted, assigned a lane, and handled there; compaction
//! runs per lane.

use vstd::prelude::*;
use crate::hash::{KeyHash, sip_hash_of, spec_lane_of};
use crate::lane::{Lane, lane_holds_id, spec_seg_entries};
use crate::manifest::Manifest;
use crate::overlay::{present_at, removed_entry};
use crate::shape_set::{sorted_strict, union_shapes};

verus! {

/// Aggregated sizes across all lanes.
#[derive(Debug, Clone, Copy, PartialEq, Eq, Structural)]
pub struct IndexStats {
    /// How many lanes the index has.
    pub num_lanes: usize,
    /// Overlay keys across lanes, pegged at `usize::MAX`.
    pub total_overlay_entries: usize,
    /// Segment fingerprints across lanes, pegged at `usize::MAX`.
    pub total_segment_entries: usize,
    /// Segments across lanes, pegged at `usize::MAX`.
    pub total_segments: usize,
    /// Overlay keys plus segment fingerprints, pegged at `usize::MAX`.
    pub total_entries: usize,
}

/// Overlay keys across a lane sequence.
pub open spec fn sum_overlay(lanes: Seq<Lane>) -> int
    decreases lanes.len(),
{
    if lanes.len() == 0 {
        0
    } else {
        sum_overlay(lanes.drop_last()) + lanes.last().spec_overlay_map().dom().len()
    }
}

/// Segment fingerprints across a lane sequence.
pub open spec fn sum_seg_entries(lanes: Seq<Lane>) -> int
    decreases lanes.len(),
{
    if lanes.len() == 0 {
        0
    } else {
        sum_seg_entries(lanes.drop_last()) + spec_seg_entries(lanes.last().spec_segments())
    }
}

/// Segments across a lane sequence.
pub open spec fn sum_seg_count(lanes: Seq<Lane>) -> int
    decreases lanes.len(),
{
    if lanes.len() == 0 {
        0
    } else {
        sum_seg_count(lanes.drop_last()) + lanes.last().spec_segments().len()
    }
}

/// Lanes with empty overlays and no segments contribute nothing to any of
/// the three totals.
proof fn lemma_sums_zero(lanes: Seq<Lane>)
    requires
        forall|i: int| 0 <= i < lanes.len()
            ==> (#[trigger] lanes[i]).spec_overlay_map()
                == Map::<u64, Option<Set<u32>>>::empty(),
        forall|i: int| 0 <= i < lanes.len()
            ==> (#[trigger] lanes[i]).spec_segments().len() == 0,
    ensures
        sum_overlay(lanes) == 0,
        sum_seg_entries(lanes) == 0,
        sum_seg_count(lanes) == 0,
    decreases lanes.len(),
{
    if lanes.len() > 0 {
        lemma_sums_zero(lanes.drop_last());
        assert(lanes.last().spec_overlay_map().dom() =~= Set::<u64>::empty());
    }
}

/// An integer total pegged at `usize::MAX`.
pub open spec fn pegged(total: int) -> int {
    if total <= usize::MAX {
        total
    } else {
        usize::MAX as int
    }
}

/// The lanes whose overlays have reached `threshold` keys, in order.
pub open spec fn due_lanes(lanes: Seq<Lane>, threshold: usize) -> Seq<usize>
    decreases lanes.len(),
{
    if lanes.len() == 0 {
        Seq::empty()
    } else {
        due_lanes(lanes.drop_last(), threshold) + (
            if lanes.last().spec_overlay_map().dom().len() >= threshold {
                seq![(lanes.len() - 1) as usize]
            } else {
                Seq::empty()
            }
        )
    }
}

/// The lane-partitioned equality index.
#[derive(Debug)]
pub struct LsmIndex {
    num_lanes: usize,
    lanes: Vec<Lane>,
    manifest: Manifest,
    base_path: Option<Vec<u8>>,
}

impl LsmIndex {
    /// How many lanes the index was created with.
    pub closed spec fn spec_num_lanes(self) -> usize {
        self.num_lanes
    }

    /// The lanes, by lane id.
    pub closed spec fn spec_lanes(self) -> Seq<Lane> {
        self.lanes@
    }

    /// The index's manifest.
    pub closed spec fn spec_manifest(self) -> Manifest {
        self.manifest
    }

    /// One lane per id, each well formed and owning its id.
    pub closed spec fn wf(self) -> bool {
        &&& 1 <= self.num_lanes <= u32::MAX
        &&& self.lanes@.len() == self.num_lanes
        &&& forall|i: int| 0 <= i < self.lanes@.len() ==> (#[trigger] self.lanes@[i]).wf()
        &&& forall|i: int| 0 <= i < self.lanes@.len()
            ==> (#[trigger] self.lanes@[i]).spec_id() == i
    }

    /// The lane that owns fingerprint `h`.
    pub open spec fn lane_at(self, h: u64) -> Lane {
        self.spec_lanes()[spec_lane_of(h, self.spec_num_lanes()) as int]
    }

    /// What a lookup of fingerprint `h` yields.
    pub open spec fn resolve(self, h: u64) -> Option<Set<u32>> {
        self.lane_at(h).resolve(h)
    }

    /// A fresh index of `num_lanes` empty lanes and a generation-zero
    /// manifest.
    pub fn new(num_lanes: usize, base_path: Option<Vec<u8>>) -> (r: Self)
        requires
            1 <= num_lanes <= u32::MAX,
        ensures
            r.wf(),
            r.spec_num_lanes() == num_lanes,
            r.spec_lanes().len() == num_lanes,
            forall|i: int| 0 <= i < num_lanes
                ==> (#[trigger] r.spec_lanes()[i]).spec_overlay_map()
                    == Map::<u64, Option<Set<u32>>>::empty(),
            forall|i: int| 0 <= i < num_lanes
                ==> (#[trigger] r.spec_lanes()[i]).spec_segments().len() == 0,
            forall|h: u64| #[trigger] r.resolve(h) is None,
            r.spec_manifest().version == crate::manifest::MANIFEST_VERSION,
            r.spec_manifest().generation == 0,
            r.spec_manifest().num_lanes == num_lanes,
            sum_overlay(r.spec_lanes()) == 0,
            sum_seg_entries(r.spec_lanes()) == 0,
            sum_seg_count(r.spec_lanes()) == 0,
    {
        let mut lanes: Vec<Lane> = Vec::with_capacity(num_lanes);
        let mut i: usize = 0;
        while i < num_lanes
            invariant
                i <= num_lanes,
                num_lanes <= u32::MAX,
                lanes@.len() == i,
                forall|k: int| 0 <= k < i ==> (#[trigger] lanes@[k]).wf(),
                forall|k: int| 0 <= k < i ==> (#[trigger] lanes@[k]).spec_id() == k,
                forall|k: int, h: u64| 0 <= k < i ==> (#[trigger] lanes@[k].resolve(h)) is None,
                forall|k: int| 0 <= k < i
                    ==> (#[trigger] lanes@[k]).spec_overlay_map()
                        == Map::<u64, Option<Set<u32>>>::empty(),
                forall|k: int| 0 <= k < i
                    ==> (#[trigger] lanes@[k]).spec_segments().len() == 0,
            decreases num_lanes - i,
        {
            lanes.push(Lane::new(i as u32));
            i = i + 1;
        }
        let manifest = Manifest::new(num_lanes);
        let r = LsmIndex { num_lanes, lanes, manifest, base_path };
        proof {
            assert forall|h: u64| #[trigger] r.resolve(h) is None by {
                crate::hash::lemma_lane_of_range(h, num_lanes);
            }
            lemma_sums_zero(r.spec_lanes());
        }
        r
    }

    /// Record that `key` maps to `shape_id` as well. Only the key's own
    /// fingerprint changes its answer.
    pub fn insert(&mut self, key: &[u8], shape_id: u32) -> (r: Result<(), String>)
        requires
            old(self).wf(),
        ensures
            r is Ok,
            final(self).wf(),
            final(self).spec_num_lanes() == old(self).spec_num_lanes(),
            final(self).spec_manifest() == old(self).spec_manifest(),
            forall|h2: u64| h2 != sip_hash_of(key@)
                ==> #[trigger] final(self).resolve(h2) == old(self).resolve(h2),
            final(self).resolve(sip_hash_of(key@)) == Some(
                present_at(
                    old(self).lane_at(sip_hash_of(key@)).spec_overlay_map(),
                    sip_hash_of(key@),
                ).insert(shape_id),
            ),
    {
        let hash = KeyHash::from_bytes(key);
        let lane_id = hash.lane(self.num_lanes);
        let ghost pre = *self;
        let lane = &mut self.lanes[lane_id];
        lane.insert(hash, shape_id);
        proof {
            crate::hash::lemma_lane_of_range(hash.0, self.num_lanes);
            assert forall|h2: u64| h2 != sip_hash_of(key@)
                implies #[trigger] self.resolve(h2) == pre.resolve(h2) by {
                crate::hash::lemma_lane_of_range(h2, self.num_lanes);
                let l2 = spec_lane_of(h2, self.num_lanes) as int;
                if l2 == lane_id {
                    assert(self.lanes@[l2].spec_overlay_map()
                        == pre.lanes@[l2].spec_overlay_map().insert(
                            hash.0,
                            Some(present_at(pre.lanes@[l2].spec_overlay_map(), hash.0)
                                .insert(shape_id)),
                        ));
                } else {
                    assert(self.lanes@[l2] == pre.lanes@[l2]);
                }
            }
        }
        Ok(())
    }

    /// Record that `key` no longer maps to `shape_id`; the key's slot in its
    /// lane's overlay becomes smaller or a tombstone.
    pub fn remove(&mut self, key: &[u8], shape_id: u32) -> (r: Result<(), String>)
        requires
            old(self).wf(),
        ensures
            r is Ok,
            final(self).wf(),
            final(self).spec_num_lanes() == old(self).spec_num_lanes(),
            final(self).spec_manifest() == old(self).spec_manifest(),
            forall|h2: u64| h2 != sip_hash_of(key@)
                ==> #[trigger] final(self).resolve(h2) == old(self).resolve(h2),
            final(self).resolve(sip_hash_of(key@)) == removed_entry(
                old(self).lane_at(sip_hash_of(key@)).spec_overlay_map(),
                sip_hash_of(key@),
                shape_id,
            ),
    {
        let hash = KeyHash::from_bytes(key);
        let lane_id = hash.lane(self.num_lanes);
        let ghost pre = *self;
        let lane = &mut self.lanes[lane_id];
        lane.remove(hash, shape_id);
        proof {
            crate::hash::lemma_lane_of_range(hash.0, self.num_lanes);
            assert forall|h2: u64| h2 != sip_hash_of(key@)
                implies #[trigger] self.resolve(h2) == pre.resolve(h2) by {
                crate::hash::lemma_lane_of_range(h2, self.num_lanes);
                let l2 = spec_lane_of(h2, self.num_lanes) as int;
                if l2 != lane_id {
                    assert(self.lanes@[l2] == pre.lanes@[l2]);
                }
            }
        }
        Ok(())
    }

    /// The shape ids `key` maps to, ascending, or `None`.
    pub fn lookup(&self, key: &[u8]) -> (r: Option<Vec<u32>>)
        requires
            self.wf(),
        ensures
            match r {
                Some(ids) => {
                    &&& self.resolve(sip_hash_of(key@)) is Some
                    &&& sorted_strict(ids@)
                    &&& ids@.to_set() == self.resolve(sip_hash_of(key@)).unwrap()
                    &&& ids@.len() >= 1
                },
                None => self.resolve(sip_hash_of(key@)) is None,
            },
    {
        let hash = KeyHash::from_bytes(key);
        let lane_id = hash.lane(self.num_lanes);
        self.lanes[lane_id].lookup(hash)
    }

    /// Every shape id any lane holds, ascending.
    pub fn all_shape_ids(&self) -> (r: Vec<u32>)
        requires
            self.wf(),
        ensures
            sorted_strict(r@),
            forall|id: u32| r@.to_set().contains(id) <==> exists|k: int|
                #![trigger lane_holds_id(self.spec_lanes()[k], id)]
                0 <= k < self.spec_lanes().len()
                    && lane_holds_id(self.spec_lanes()[k], id),
    {
        let mut out: Vec<u32> = Vec::new();
        let mut i: usize = 0;
        while i < self.lanes.len()
            invariant
                i <= self.lanes@.len(),
                self.wf(),
                sorted_strict(out@),
                forall|id: u32| out@.to_set().contains(id) <==> exists|k: int|
                    #![trigger lane_holds_id(self.spec_lanes()[k], id)]
                    0 <= k < i && lane_holds_id(self.spec_lanes()[k], id),
            decreases self.lanes@.len() - i,
        {
            let ghost pre = out@;
            let lane_ids = self.lanes[i].all_shape_ids();
            union_shapes(&mut out, &lane_ids);
            proof {
                assert forall|id: u32| out@.to_set().contains(id) implies exists|k: int|
                    #![trigger lane_holds_id(self.spec_lanes()[k], id)]
                    0 <= k < i + 1 && lane_holds_id(self.spec_lanes()[k], id) by {
                    if pre.to_set().contains(id) {
                        let k = choose|k: int|
                            0 <= k < i && #[trigger] lane_holds_id(self.spec_lanes()[k], id);
                        assert(lane_holds_id(self.spec_lanes()[k], id));
                    } else {
                        assert(lane_holds_id(self.spec_lanes()[i as int], id));
                    }
                }
                assert forall|id: u32, k: int|
                    #![trigger lane_holds_id(self.spec_lanes()[k], id)]
                    0 <= k < i + 1 && lane_holds_id(self.spec_lanes()[k], id)
                    implies out@.to_set().contains(id) by {
                    if k < i {
                        assert(pre.to_set().contains(id));
                    } else {
                        assert(lane_ids@.to_set().contains(id));
                    }
                }
            }
            i = i + 1;
        }
        out
    }

    /// Whether every lane is empty.
    pub fn is_empty(&self) -> (r: bool)
        requires
            self.wf(),
        ensures
            r == forall|i: int| 0 <= i < self.spec_lanes().len() ==> {
                &&& (#[trigger] self.spec_lanes()[i]).spec_overlay_map().dom()
                    == Set::<u64>::empty()
                &&& self.spec_lanes()[i].spec_segments().len() == 0
            },
    {
        let mut i: usize = 0;
        while i < self.lanes.len()
            invariant
                i <= self.lanes@.len(),
                self.wf(),
                forall|k: int| 0 <= k < i ==> {
                    &&& (#[trigger] self.spec_lanes()[k]).spec_overlay_map().dom()
                        == Set::<u64>::empty()
                    &&& self.spec_lanes()[k].spec_segments().len() == 0
                },
            decreases self.lanes@.len() - i,
        {
            if !self.lanes[i].is_empty() {
                proof {
                    assert(!((self.spec_lanes()[i as int]).spec_overlay_map().dom()
                        == Set::<u64>::empty()
                        && self.spec_lanes()[i as int].spec_segments().len() == 0));
                }
                return false;
            }
            i = i + 1;
        }
        true
    }

    /// Compact every lane whose overlay has reached `overlay_threshold`
    /// keys, returning the compacted lane ids in order. On an error, lanes
    /// before the failing one keep their compacted state.
    pub fn maybe_compact(&mut self, overlay_threshold: usize) -> (r: Result<Vec<usize>, String>)
        requires
            old(self).wf(),
        ensures
            final(self).wf(),
            final(self).spec_num_lanes() == old(self).spec_num_lanes(),
            r is Ok ==> {
                &&& r.unwrap()@ == due_lanes(old(self).spec_lanes(), overlay_threshold)
                &&& forall|i: int| 0 <= i < old(self).spec_lanes().len()
                    ==> if (#[trigger] old(self).spec_lanes()[i]).spec_overlay_map().dom().len()
                        >= overlay_threshold {
                        &&& final(self).spec_lanes()[i].spec_overlay_map()
                            == Map::<u64, Option<Set<u32>>>::empty()
                        &&& forall|h: u64| #[trigger] final(self).spec_lanes()[i].resolve(h)
                            == old(self).spec_lanes()[i].resolve(h)
                    } else {
                        final(self).spec_lanes()[i] == old(self).spec_lanes()[i]
                    }
            },
            r is Err ==> exists|i: int| 0 <= i < old(self).spec_lanes().len()
                && (#[trigger] old(self).spec_lanes()[i]).spec_next_segment_id()
                    >= u64::MAX - 1,
    {
        let ghost pre = *self;
        let mut compacted: Vec<usize> = Vec::new();
        let mut i: usize = 0;
        while i < self.lanes.len()
            invariant
                i <= self.lanes@.len(),
                self.wf(),
                self.num_lanes == pre.num_lanes,
                self.lanes@.len() == pre.lanes@.len(),
                pre == *old(self),
                pre.wf(),
                compacted@ == due_lanes(pre.spec_lanes().subrange(0, i as int), overlay_threshold),
                forall|k: int| i <= k < self.lanes@.len()
                    ==> #[trigger] self.lanes@[k] == pre.lanes@[k],
                forall|k: int| 0 <= k < i
                    ==> if (#[trigger] pre.spec_lanes()[k]).spec_overlay_map().dom().len()
                        >= overlay_threshold {
                        &&& self.spec_lanes()[k].spec_overlay_map()
                            == Map::<u64, Option<Set<u32>>>::empty()
                        &&& forall|h: u64| #[trigger] self.spec_lanes()[k].resolve(h)
                            == pre.spec_lanes()[k].resolve(h)
                    } else {
                        self.spec_lanes()[k] == pre.spec_lanes()[k]
                    },
            decreases self.lanes@.len() - i,
        {
            proof {
                assert(pre.spec_lanes().subrange(0, i + 1).drop_last()
                    =~= pre.spec_lanes().subrange(0, i as int));
                assert(pre.spec_lanes().subrange(0, i + 1).last() == pre.spec_lanes()[i as int]);
            }
            let should_compact = self.lanes[i].overlay_size() >= overlay_threshold;
            if should_compact {
                let lane = &mut self.lanes[i];
                match lane.compact() {
                    Ok(()) => {}
                    Err(e) => {
                        proof {
                            assert(pre.spec_lanes()[i as int].spec_next_segment_id()
                                >= u64::MAX - 1);
                        }
                        return Err(e);
                    }
                }
                compacted.push(i);
            }
            i = i + 1;
        }
        proof {
            assert(pre.spec_lanes().subrange(0, pre.spec_lanes().len() as int)
                =~= pre.spec_lanes());
        }
        Ok(compacted)
    }

    /// Aggregated sizes across all lanes, each total pegged at `usize::MAX`.
    pub fn stats(&self) -> (r: IndexStats)
        requires
            self.wf(),
        ensures
            r.num_lanes == self.spec_num_lanes(),
            r.total_overlay_entries == pegged(sum_overlay(self.spec_lanes())),
            r.total_segment_entries == pegged(sum_seg_entries(self.spec_lanes())),
            r.total_segments == pegged(sum_seg_count(self.spec_lanes())),
            r.total_entries == pegged(
                r.total_overlay_entries + r.total_segment_entries,
            ),
    {
        let mut total_overlay_entries: usize = 0;
        let mut total_segment_entries: usize = 0;
        let mut total_segments: usize = 0;
        let mut i: usize = 0;
        while i < self.lanes.len()
            invariant
                i <= self.lanes@.len(),
                self.wf(),
                total_overlay_entries
                    == pegged(sum_overlay(self.spec_lanes().subrange(0, i as int))),
                total_segment_entries
                    == pegged(sum_seg_entries(self.spec_lanes().subrange(0, i as int))),
                total_segments
                    == pegged(sum_seg_count(self.spec_lanes().subrange(0, i as int))),
            decreases self.lanes@.len() - i,
        {
            proof {
                assert(self.spec_lanes().subrange(0, i + 1).drop_last()
                    =~= self.spec_lanes().subrange(0, i as int));
                assert(self.spec_lanes().subrange(0, i + 1).last()
                    == self.spec_lanes()[i as int]);
            }
            total_overlay_entries = total_overlay_entries.saturating_add(
                self.lanes[i].overlay_size(),
            );
            total_segment_entries = total_segment_entries.saturating_add(
                self.lanes[i].segment_size(),
            );
            total_segments = total_segments.saturating_add(self.lanes[i].segment_count());
            i = i + 1;
        }
        proof {
            assert(self.spec_lanes().subrange(0, self.spec_lanes().len() as int)
                =~= self.spec_lanes());
        }
        IndexStats {
            num_lanes: self.num_lanes,
            total_overlay_entries,
            total_segment_entries,
            total_segments,
            total_entries: total_overlay_entries.saturating_add(total_segment_entries),
        }
    }
}

} // verus!
