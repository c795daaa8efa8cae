//! Router metrics: counters and accumulated latencies, recorded at fixed
//! points — one presence check per route, a miss when the filter says no, a
//! false positive when the exact index then finds nothing, a hit otherwise.

use vstd::prelude::*;

verus! {

/// A counter grows until it pegs at `u64::MAX`.
pub open spec fn tally(c: u64) -> u64 {
    if c < u64::MAX {
        (c + 1) as u64
    } else {
        u64::MAX
    }
}

/// An accumulator grows by `d` until it pegs at `u64::MAX`.
pub open spec fn accrue(c: u64, d: u64) -> u64 {
    if c + d <= u64::MAX {
        (c + d) as u64
    } else {
        u64::MAX
    }
}

/// A point-in-time copy of every counter.
#[derive(Debug, Clone, Copy, PartialEq, Eq, Structural)]
pub struct MetricsSnapshot {
    /// Presence-filter probes; exactly one per route call.
    pub presence_checks: u64,
    /// Probes the filter answered `true`.
    pub presence_hits: u64,
    /// Route calls that ran to a verdict.
    pub route_calls: u64,
    /// Route calls that reached the predicate stage.
    pub route_hits: u64,
    /// Route calls the filter cut short.
    pub route_misses: u64,
    /// Filter hits the exact index then rejected.
    pub false_positives: u64,
    /// Completed presence-filter rebuilds.
    pub rebuilds: u64,
    /// Nanoseconds spent in presence checks.
    pub total_presence_ns: u64,
    /// Nanoseconds spent routing.
    pub total_route_ns: u64,
    /// Nanoseconds spent rebuilding.
    pub total_rebuild_ns: u64,
    /// Shape ids matched across all hits.
    pub total_shapes_matched: u64,
}

/// The router's counters; all saturate rather than wrap.
#[derive(Debug)]
pub struct RouterMetrics {
    snapshot: MetricsSnapshot,
}

impl RouterMetrics {
    /// The current counter values.
    pub closed spec fn spec_snapshot(self) -> MetricsSnapshot {
        self.snapshot
    }

    /// All counters at zero.
    pub fn new() -> (r: Self)
        ensures
            r.spec_snapshot() == (MetricsSnapshot {
                presence_checks: 0,
                presence_hits: 0,
                route_calls: 0,
                route_hits: 0,
                route_misses: 0,
                false_positives: 0,
                rebuilds: 0,
                total_presence_ns: 0,
                total_route_ns: 0,
                total_rebuild_ns: 0,
                total_shapes_matched: 0,
            }),
    {
        RouterMetrics {
            snapshot: MetricsSnapshot {
                presence_checks: 0,
                presence_hits: 0,
                route_calls: 0,
                route_hits: 0,
                route_misses: 0,
                false_positives: 0,
                rebuilds: 0,
                total_presence_ns: 0,
                total_route_ns: 0,
                total_rebuild_ns: 0,
                total_shapes_matched: 0,
            },
        }
    }

    /// One presence probe took `duration_ns` and answered `hit`.
    pub fn record_presence_check(&mut self, duration_ns: u64, hit: bool)
        ensures
            final(self).spec_snapshot() == (MetricsSnapshot {
                presence_checks: tally(old(self).spec_snapshot().presence_checks),
                presence_hits: if hit {
                    tally(old(self).spec_snapshot().presence_hits)
                } else {
                    old(self).spec_snapshot().presence_hits
                },
                total_presence_ns: accrue(old(self).spec_snapshot().total_presence_ns, duration_ns),
                ..old(self).spec_snapshot()
            }),
    {
        self.snapshot.presence_checks = bump64(self.snapshot.presence_checks);
        if hit {
            self.snapshot.presence_hits = bump64(self.snapshot.presence_hits);
        }
        self.snapshot.total_presence_ns = self.snapshot.total_presence_ns.saturating_add(
            duration_ns,
        );
    }

    /// A route call reached the predicate stage and matched `shape_count`
    /// shapes — possibly zero — in `duration_ns`.
    pub fn record_route_hit(&mut self, duration_ns: u64, shape_count: usize)
        ensures
            final(self).spec_snapshot() == (MetricsSnapshot {
                route_calls: tally(old(self).spec_snapshot().route_calls),
                route_hits: tally(old(self).spec_snapshot().route_hits),
                total_route_ns: accrue(old(self).spec_snapshot().total_route_ns, duration_ns),
                total_shapes_matched: if old(self).spec_snapshot().total_shapes_matched
                    + shape_count <= u64::MAX {
                    (old(self).spec_snapshot().total_shapes_matched + shape_count) as u64
                } else {
                    u64::MAX
                },
                ..old(self).spec_snapshot()
            }),
    {
        self.snapshot.route_calls = bump64(self.snapshot.route_calls);
        self.snapshot.route_hits = bump64(self.snapshot.route_hits);
        self.snapshot.total_route_ns = self.snapshot.total_route_ns.saturating_add(duration_ns);
        self.snapshot.total_shapes_matched = self.snapshot.total_shapes_matched.saturating_add(
            shape_count as u64,
        );
    }

    /// The presence filter cut a route call short in `duration_ns`.
    pub fn record_route_miss(&mut self, duration_ns: u64)
        ensures
            final(self).spec_snapshot() == (MetricsSnapshot {
                route_calls: tally(old(self).spec_snapshot().route_calls),
                route_misses: tally(old(self).spec_snapshot().route_misses),
                total_route_ns: accrue(old(self).spec_snapshot().total_route_ns, duration_ns),
                ..old(self).spec_snapshot()
            }),
    {
        self.snapshot.route_calls = bump64(self.snapshot.route_calls);
        self.snapshot.route_misses = bump64(self.snapshot.route_misses);
        self.snapshot.total_route_ns = self.snapshot.total_route_ns.saturating_add(duration_ns);
    }

    /// The filter passed but the exact index held nothing; `duration_ns`
    /// spent.
    pub fn record_false_positive(&mut self, duration_ns: u64)
        ensures
            final(self).spec_snapshot() == (MetricsSnapshot {
                false_positives: tally(old(self).spec_snapshot().false_positives),
                total_route_ns: accrue(old(self).spec_snapshot().total_route_ns, duration_ns),
                ..old(self).spec_snapshot()
            }),
    {
        self.snapshot.false_positives = bump64(self.snapshot.false_positives);
        self.snapshot.total_route_ns = self.snapshot.total_route_ns.saturating_add(duration_ns);
    }

    /// A rebuild over `key_count` keys finished in `duration_ns`.
    pub fn record_rebuild(&mut self, duration_ns: u64, key_count: usize)
        ensures
            final(self).spec_snapshot() == (MetricsSnapshot {
                rebuilds: tally(old(self).spec_snapshot().rebuilds),
                total_rebuild_ns: accrue(old(self).spec_snapshot().total_rebuild_ns, duration_ns),
                ..old(self).spec_snapshot()
            }),
    {
        let _ = key_count;
        self.snapshot.rebuilds = bump64(self.snapshot.rebuilds);
        self.snapshot.total_rebuild_ns = self.snapshot.total_rebuild_ns.saturating_add(
            duration_ns,
        );
    }

    /// A copy of every counter.
    pub fn snapshot(&self) -> (r: MetricsSnapshot)
        ensures
            r == self.spec_snapshot(),
    {
        self.snapshot
    }
}

/// One more event: saturating increment.
fn bump64(c: u64) -> (r: u64)
    ensures
        r == tally(c),
{
    if c < u64::MAX {
        c + 1
    } else {
        u64::MAX
    }
}

} // verus!
