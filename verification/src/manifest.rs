//! The manifest: a versioned description of the index — lane count,
//! generation number, and each lane's segment files. A host persists it with
//! a write-to-temp-then-rename step; this module holds the document itself.

use vstd::prelude::*;

verus! {

/// The manifest format version this crate writes.
pub const MANIFEST_VERSION: u32 = 1;

/// What the manifest records about one segment file.
#[derive(Debug, Clone)]
pub struct SegmentMetadata {
    /// The segment's id.
    pub id: u64,
    /// The segment's level in the tree.
    pub level: u32,
    /// How many fingerprints the segment holds.
    pub count: usize,
    /// The segment file's path, relative to the index base, as bytes.
    pub path: Vec<u8>,
    /// An integrity checksum over the file, if one was recorded, as bytes.
    pub checksum: Option<Vec<u8>>,
}

/// One lane's slice of the manifest.
#[derive(Debug, Clone)]
pub struct LaneManifest {
    /// The lane's id.
    pub id: u32,
    /// Segment metadata, newest first.
    pub segments: Vec<SegmentMetadata>,
    /// The lane's overlay sequence number at the last save.
    pub overlay_seqno: u64,
}

/// The whole index description, swapped atomically on disk.
#[derive(Debug, Clone)]
pub struct Manifest {
    /// Format version; always [`MANIFEST_VERSION`] for documents this crate
    /// writes.
    pub version: u32,
    /// How many lanes the index has.
    pub num_lanes: usize,
    /// Incremented on every save.
    pub generation: u64,
    /// Per-lane metadata, one entry per lane.
    pub lanes: Vec<LaneManifest>,
}

impl Manifest {
    /// A fresh manifest at generation zero with one empty entry per lane.
    pub fn new(num_lanes: usize) -> (r: Self)
        requires
            num_lanes <= u32::MAX,
        ensures
            r.version == MANIFEST_VERSION,
            r.num_lanes == num_lanes,
            r.generation == 0,
            r.lanes@.len() == num_lanes,
            forall|i: int| 0 <= i < num_lanes ==> {
                &&& (#[trigger] r.lanes@[i]).id == i
                &&& r.lanes@[i].segments@.len() == 0
                &&& r.lanes@[i].overlay_seqno == 0
            },
    {
        let mut lanes: Vec<LaneManifest> = Vec::with_capacity(num_lanes);
        let mut i: usize = 0;
        while i < num_lanes
            invariant
                i <= num_lanes,
                num_lanes <= u32::MAX,
                lanes@.len() == i,
                forall|k: int| 0 <= k < i ==> {
                    &&& (#[trigger] lanes@[k]).id == k
                    &&& lanes@[k].segments@.len() == 0
                    &&& lanes@[k].overlay_seqno == 0
                },
            decreases num_lanes - i,
        {
            lanes.push(LaneManifest::new(i as u32));
            i = i + 1;
        }
        Manifest { version: MANIFEST_VERSION, num_lanes, generation: 0, lanes }
    }

    /// Step the generation, as every save does before writing: the saved
    /// image carries a generation one higher than the last, until it pegs.
    pub fn advance_generation(&mut self)
        ensures
            final(self).version == old(self).version,
            final(self).num_lanes == old(self).num_lanes,
            final(self).lanes == old(self).lanes,
            old(self).generation < u64::MAX
                ==> final(self).generation == old(self).generation + 1,
            old(self).generation == u64::MAX ==> final(self).generation == u64::MAX,
    {
        if self.generation < u64::MAX {
            self.generation = self.generation + 1;
        }
    }

    /// The manifest entry of lane `lane_id`, if one exists.
    pub fn get_lane(&self, lane_id: u32) -> (r: Option<&LaneManifest>)
        ensures
            match r {
                Some(l) => exists|i: int| 0 <= i < self.lanes@.len()
                    && *l == #[trigger] self.lanes@[i] && l.id == lane_id
                    && (forall|k: int| 0 <= k < i
                        ==> (#[trigger] self.lanes@[k]).id != lane_id),
                None => forall|i: int| 0 <= i < self.lanes@.len()
                    ==> (#[trigger] self.lanes@[i]).id != lane_id,
            },
    {
        let mut i: usize = 0;
        while i < self.lanes.len()
            invariant
                i <= self.lanes@.len(),
                forall|k: int| 0 <= k < i ==> (#[trigger] self.lanes@[k]).id != lane_id,
            decreases self.lanes@.len() - i,
        {
            if self.lanes[i].id == lane_id {
                let r = &self.lanes[i];
                assert(*r == self.lanes@[i as int]);
                return Some(r);
            }
            i = i + 1;
        }
        None
    }

    /// A mutable borrow of the manifest entry of lane `lane_id`, if one
    /// exists; nothing else changes.
    pub fn get_lane_mut(&mut self, lane_id: u32) -> (r: Option<&mut LaneManifest>)
        ensures
            match r {
                Some(l) => exists|i: int| {
                    &&& 0 <= i < old(self).lanes@.len()
                    &&& *l == #[trigger] old(self).lanes@[i]
                    &&& l.id == lane_id
                    &&& forall|k: int| 0 <= k < i
                        ==> (#[trigger] old(self).lanes@[k]).id != lane_id
                    &&& final(self).lanes@ == old(self).lanes@.update(i, *final(l))
                    &&& final(self).version == old(self).version
                    &&& final(self).num_lanes == old(self).num_lanes
                    &&& final(self).generation == old(self).generation
                },
                None => {
                    &&& *final(self) == *old(self)
                    &&& forall|i: int| 0 <= i < old(self).lanes@.len()
                        ==> (#[trigger] old(self).lanes@[i]).id != lane_id
                },
            },
    {
        let mut i: usize = 0;
        while i < self.lanes.len()
            invariant
                i <= self.lanes@.len(),
                self == old(self),
                forall|k: int| 0 <= k < i ==> (#[trigger] self.lanes@[k]).id != lane_id,
            decreases self.lanes@.len() - i,
        {
            if self.lanes[i].id == lane_id {
                return Some(&mut self.lanes[i]);
            }
            i = i + 1;
        }
        None
    }
}

impl LaneManifest {
    /// An empty manifest entry for lane `id`.
    pub fn new(id: u32) -> (r: Self)
        ensures
            r.id == id,
            r.segments@.len() == 0,
            r.overlay_seqno == 0,
    {
        LaneManifest { id, segments: Vec::new(), overlay_seqno: 0 }
    }

    /// Record a segment at the front: the newest comes first.
    pub fn add_segment(&mut self, metadata: SegmentMetadata)
        ensures
            final(self).id == old(self).id,
            final(self).overlay_seqno == old(self).overlay_seqno,
            final(self).segments@ == old(self).segments@.insert(0, metadata),
    {
        self.segments.insert(0, metadata);
    }

    /// Drop every record of segment `segment_id`.
    pub fn remove_segment(&mut self, segment_id: u64)
        ensures
            final(self).id == old(self).id,
            final(self).overlay_seqno == old(self).overlay_seqno,
            final(self).segments@ == old(self).segments@.filter(
                |s: SegmentMetadata| s.id != segment_id,
            ),
    {
        let ghost orig = self.segments@;
        let mut kept: Vec<SegmentMetadata> = Vec::new();
        while self.segments.len() > 0
            invariant
                self.id == old(self).id,
                self.overlay_seqno == old(self).overlay_seqno,
                orig == old(self).segments@,
                self.segments@.len() <= orig.len(),
                self.segments@ == orig.subrange(
                    orig.len() - self.segments@.len(),
                    orig.len() as int,
                ),
                kept@ == orig.subrange(0, orig.len() - self.segments@.len()).filter(
                    |s: SegmentMetadata| s.id != segment_id,
                ),
            decreases self.segments@.len(),
        {
            let ghost done = orig.len() - self.segments@.len();
            let sm = self.segments.remove(0);
            proof {
                assert(sm == orig[done]);
                assert(self.segments@ =~= orig.subrange(done + 1, orig.len() as int));
                assert(orig.subrange(0, done + 1).drop_last() =~= orig.subrange(0, done));
                assert(orig.subrange(0, done + 1).last() == orig[done]);
                reveal_with_fuel(Seq::filter, 2);
            }
            if sm.id != segment_id {
                kept.push(sm);
                proof {
                    assert(kept@ =~= orig.subrange(0, done + 1).filter(
                        |s: SegmentMetadata| s.id != segment_id,
                    ));
                }
            } else {
                proof {
                    assert(kept@ =~= orig.subrange(0, done + 1).filter(
                        |s: SegmentMetadata| s.id != segment_id,
                    ));
                }
            }
        }
        proof {
            assert(orig.subrange(0, orig.len() as int) =~= orig);
        }
        self.segments = kept;
    }
}

} // verus!
