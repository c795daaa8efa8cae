//! Compaction policy: when a lane's overlay has grown enough to be frozen
//! into a segment. The index runs compaction synchronously; a host may drive
//! it from a background worker.

use vstd::prelude::*;
use crate::lane::Lane;

verus! {

/// Thresholds steering compaction.
#[derive(Debug, Clone, Copy, PartialEq, Eq, Structural)]
pub struct CompactionPolicy {
    /// Overlay keys a lane may gather before it should be compacted.
    pub overlay_threshold: usize,
    /// Segments a lane may hold before they are merged.
    pub max_segments_per_lane: usize,
    /// Size ratio for leveled compaction; reserved for richer policies.
    pub size_ratio: usize,
}

impl Default for CompactionPolicy {
    /// The default policy: compact at ten thousand overlay keys, merge past
    /// three segments, size ratio ten.
    fn default() -> (r: Self)
        ensures
            r.overlay_threshold == 10000,
            r.max_segments_per_lane == 3,
            r.size_ratio == 10,
    {
        CompactionPolicy { overlay_threshold: 10000, max_segments_per_lane: 3, size_ratio: 10 }
    }
}

/// Decides, lane by lane, whether compaction is due under a fixed policy.
#[derive(Debug, Clone, Copy, PartialEq, Eq, Structural)]
pub struct CompactionScheduler {
    policy: CompactionPolicy,
}

impl CompactionScheduler {
    /// The policy this scheduler applies.
    pub closed spec fn spec_policy(self) -> CompactionPolicy {
        self.policy
    }

    /// A scheduler applying `policy`.
    pub fn new(policy: CompactionPolicy) -> (r: Self)
        ensures
            r.spec_policy() == policy,
    {
        CompactionScheduler { policy }
    }

    /// Whether `lane`'s overlay has reached the policy's threshold.
    pub fn needs_compaction(&self, lane: &Lane) -> (r: bool)
        requires
            lane.wf(),
        ensures
            r == (lane.spec_overlay_map().dom().len()
                >= self.spec_policy().overlay_threshold),
    {
        lane.overlay_size() >= self.policy.overlay_threshold
    }

    /// The policy this scheduler applies.
    pub fn policy(&self) -> (r: &CompactionPolicy)
        ensures
            *r == self.spec_policy(),
    {
        &self.policy
    }
}

impl Default for CompactionScheduler {
    /// A scheduler with the default policy.
    fn default() -> (r: Self)
        ensures
            r.spec_policy().overlay_threshold == 10000,
            r.spec_policy().max_segments_per_lane == 3,
            r.spec_policy().size_ratio == 10,
    {
        CompactionScheduler::new(CompactionPolicy::default())
    }
}

} // verus!
