//! The shape router: a three-stage pipeline from one write-ahead-log
//! operation to the shapes that must receive it. A presence filter answers
//! most negatives at once, the exact shape index names the candidates, and
//! the predicate stage keeps those whose WHERE clause the row satisfies.

use vstd::prelude::*;
use crate::presence::PresenceFilter;
use crate::shape_index::ShapeIndex;
use crate::predicate::{CompiledPredicate, cols_intersect, opt_row_view, spec_dec_predicate,
    consts_view};
use crate::metrics::{RouterMetrics, MetricsSnapshot, tally};
use crate::shape_set::{sorted_strict, lemma_sorted_strict_unique};
use crate::shape_index::delta_added;

verus! {

/// Relies on `std::time::SystemTime::now` for a wall-clock reading; nothing
/// is assumed of the value.
#[verifier::external_body]
fn wall_clock_ns() -> u64 {
    match std::time::SystemTime::now().duration_since(std::time::UNIX_EPOCH) {
        Ok(d) => d.as_nanos() as u64,
        Err(_) => 0,
    }
}

/// Nanoseconds from `start` to `end`, zero when the clock stepped back.
fn elapsed_ns(start: u64, end: u64) -> (r: u64)
    ensures
        end >= start ==> r == end - start,
        end < start ==> r == 0,
{
    if end >= start {
        end - start
    } else {
        0
    }
}

/// The shapes that survive the predicate stage: candidates whose predicate
/// exists, is not short-circuited by the column mask, and matches the rows.
pub open spec fn matched_set(
    preds: Seq<CompiledPredicate>,
    cands: Set<u32>,
    old_row: Option<Seq<u8>>,
    new_row: Option<Seq<u8>>,
    changed: Seq<u16>,
) -> Set<u32> {
    Set::new(
        |s: u32| {
            &&& cands.contains(s)
            &&& (s as int) < preds.len()
            &&& cols_intersect(preds[s as int].spec_cols(), changed)
            &&& preds[s as int].spec_matches(old_row, new_row)
        },
    )
}

/// What a route call must return, as a set: nothing when the filter says
/// absent or the index holds nothing, else the matched candidates.
pub open spec fn route_result_set(
    presence: Set<u64>,
    lookup: Option<Set<u32>>,
    preds: Seq<CompiledPredicate>,
    pk_hash: u64,
    old_row: Option<Seq<u8>>,
    new_row: Option<Seq<u8>>,
    changed: Seq<u16>,
) -> Set<u32> {
    if !presence.contains(pk_hash) {
        Set::empty()
    } else {
        match lookup {
            None => Set::empty(),
            Some(cands) => matched_set(preds, cands, old_row, new_row, changed),
        }
    }
}

/// The deterministic counters of a snapshot: everything but the clock
/// totals.
pub open spec fn spec_counters(m: MetricsSnapshot) -> (u64, u64, u64, u64, u64, u64, u64, u64) {
    (
        m.presence_checks,
        m.presence_hits,
        m.route_calls,
        m.route_hits,
        m.route_misses,
        m.false_positives,
        m.rebuilds,
        m.total_shapes_matched,
    )
}

/// The delta map after appending one shape id under each given fingerprint
/// in turn.
pub open spec fn delta_after_adds(
    m: Map<u64, Set<u32>>,
    hashes: Seq<u64>,
    shape_id: u32,
) -> Map<u64, Set<u32>>
    decreases hashes.len(),
{
    if hashes.len() == 0 {
        m
    } else {
        let m2 = delta_after_adds(m, hashes.drop_last(), shape_id);
        m2.insert(hashes.last(), delta_added(m2, hashes.last(), shape_id))
    }
}

/// A per-(tenant, table) router: presence filter, exact index, predicate
/// list and metrics.
#[derive(Debug)]
pub struct ShapeRouter {
    presence: PresenceFilter,
    index: ShapeIndex,
    predicates: Vec<CompiledPredicate>,
    metrics: RouterMetrics,
}

impl ShapeRouter {
    /// The fingerprints the presence filter passes.
    pub closed spec fn spec_presence(self) -> Set<u64> {
        self.presence.approx()
    }

    /// The exact index.
    pub closed spec fn spec_index(self) -> ShapeIndex {
        self.index
    }

    /// The predicate list, indexed by shape id.
    pub closed spec fn spec_predicates(self) -> Seq<CompiledPredicate> {
        self.predicates@
    }

    /// The metrics counters.
    pub closed spec fn spec_metrics(self) -> MetricsSnapshot {
        self.metrics.spec_snapshot()
    }

    /// The index is well formed.
    pub closed spec fn wf(self) -> bool {
        self.index.wf()
    }

    /// What a route of `pk_hash` against the current state must return.
    pub open spec fn spec_route(
        self,
        pk_hash: u64,
        old_row: Option<Seq<u8>>,
        new_row: Option<Seq<u8>>,
        changed: Seq<u16>,
    ) -> Set<u32> {
        route_result_set(
            self.spec_presence(),
            self.spec_index().spec_lookup(pk_hash),
            self.spec_predicates(),
            pk_hash,
            old_row,
            new_row,
            changed,
        )
    }

    /// An empty router: empty filter, empty index, no predicates, zeroed
    /// counters.
    pub fn new() -> (r: Self)
        ensures
            r.wf(),
            r.spec_presence() == Set::<u64>::empty(),
            r.spec_index().delta_map() == Map::<u64, Set<u32>>::empty(),
            r.spec_index().base_map() == Map::<u64, Set<u32>>::empty(),
            r.spec_index().tombstone_set() == Set::<u32>::empty(),
            r.spec_predicates() == Seq::<CompiledPredicate>::empty(),
            spec_counters(r.spec_metrics()) == (0u64, 0u64, 0u64, 0u64, 0u64, 0u64, 0u64, 0u64),
    {
        ShapeRouter {
            presence: PresenceFilter::empty(),
            index: ShapeIndex::new(),
            predicates: Vec::new(),
            metrics: RouterMetrics::new(),
        }
    }

    /// Probe the presence filter for `pk_hash`, recording the check.
    pub fn check_presence(&mut self, pk_hash: u64) -> (r: bool)
        ensures
            r == old(self).spec_presence().contains(pk_hash),
            final(self).spec_presence() == old(self).spec_presence(),
            final(self).spec_index() == old(self).spec_index(),
            final(self).spec_predicates() == old(self).spec_predicates(),
            final(self).spec_metrics().presence_checks
                == tally(old(self).spec_metrics().presence_checks),
            final(self).spec_metrics().presence_hits == (if r {
                tally(old(self).spec_metrics().presence_hits)
            } else {
                old(self).spec_metrics().presence_hits
            }),
            final(self).spec_metrics().route_calls == old(self).spec_metrics().route_calls,
            final(self).spec_metrics().route_hits == old(self).spec_metrics().route_hits,
            final(self).spec_metrics().route_misses == old(self).spec_metrics().route_misses,
            final(self).spec_metrics().false_positives
                == old(self).spec_metrics().false_positives,
            final(self).spec_metrics().rebuilds == old(self).spec_metrics().rebuilds,
            final(self).spec_metrics().total_shapes_matched
                == old(self).spec_metrics().total_shapes_matched,
    {
        let start = wall_clock_ns();
        let result = self.presence.contains(pk_hash);
        let end = wall_clock_ns();
        self.metrics.record_presence_check(elapsed_ns(start, end), result);
        result
    }

    /// Route one operation: the shapes whose predicate passes, ascending
    /// and duplicate-free. Total: no input fails, only misses.
    pub fn route_operation(
        &mut self,
        pk_hash: u64,
        old_row: Option<&[u8]>,
        new_row: Option<&[u8]>,
        changed_columns: &[u16],
    ) -> (r: Vec<u32>)
        requires
            old(self).wf(),
        ensures
            final(self).wf(),
            final(self).spec_presence() == old(self).spec_presence(),
            final(self).spec_index() == old(self).spec_index(),
            final(self).spec_predicates() == old(self).spec_predicates(),
            sorted_strict(r@),
            r@.to_set() == old(self).spec_route(
                pk_hash,
                opt_row_view(old_row),
                opt_row_view(new_row),
                changed_columns@,
            ),
            spec_counters(final(self).spec_metrics()) == spec_route_counters(
                spec_counters(old(self).spec_metrics()),
                old(self).spec_presence().contains(pk_hash),
                old(self).spec_index().spec_lookup(pk_hash),
                r@.len(),
            ),
    {
        let start = wall_clock_ns();
        if !self.check_presence(pk_hash) {
            let end = wall_clock_ns();
            self.metrics.record_route_miss(elapsed_ns(start, end));
            let r: Vec<u32> = Vec::new();
            proof {
                assert(r@.to_set() =~= Set::<u32>::empty());
            }
            return r;
        }
        let candidates = match self.index.lookup(pk_hash) {
            Some(c) => c,
            None => {
                let end = wall_clock_ns();
                self.metrics.record_false_positive(elapsed_ns(start, end));
                let r: Vec<u32> = Vec::new();
                proof {
                    assert(r@.to_set() =~= Set::<u32>::empty());
                }
                return r;
            }
        };
        let ghost cand_set = self.spec_index().spec_lookup(pk_hash).unwrap();
        let mut matched: Vec<u32> = Vec::new();
        let mut i: usize = 0;
        while i < candidates.len()
            invariant
                i <= candidates@.len(),
                sorted_strict(candidates@),
                candidates@.to_set() == cand_set,
                forall|p: int, q: int| 0 <= p < q < matched@.len()
                    ==> matched@[p] < matched@[q],
                forall|p: int| 0 <= p < matched@.len()
                    ==> exists|k: int| 0 <= k < i && candidates@[k] == #[trigger] matched@[p],
                forall|e: u32| #[trigger] matched@.to_set().contains(e) <==> (
                    candidates@.subrange(0, i as int).to_set().contains(e)
                        && in_matched(self.spec_predicates(), e, opt_row_view(old_row),
                            opt_row_view(new_row), changed_columns@)
                ),
            decreases candidates@.len() - i,
        {
            let ghost pre = matched@;
            let s = candidates[i];
            proof {
                Seq::<u32>::lemma_to_set_insert_commutes(
                    candidates@.subrange(0, i as int),
                    candidates@[i as int],
                );
                assert(candidates@.subrange(0, i + 1)
                    =~= candidates@.subrange(0, i as int) + seq![candidates@[i as int]]);
            }
            let mut keep = false;
            if (s as usize) < self.predicates.len() {
                let pred = &self.predicates[s as usize];
                if pred.columns_intersect(changed_columns) {
                    if pred.evaluate(old_row, new_row) {
                        keep = true;
                    }
                }
            }
            if keep {
                proof {
                    assert forall|p: int| 0 <= p < pre.len()
                        implies pre[p] < candidates@[i as int] by {
                        let k = choose|k: int| 0 <= k < i && candidates@[k] == pre[p];
                        assert(candidates@[k] < candidates@[i as int]);
                    }
                }
                matched.push(s);
                proof {
                    assert forall|e: u32| matched@.to_set().contains(e) implies (
                        candidates@.subrange(0, i + 1).to_set().contains(e)
                            && in_matched(self.spec_predicates(), e, opt_row_view(old_row),
                                opt_row_view(new_row), changed_columns@)
                    ) by {
                        assert(matched@.contains(e));
                        let p = choose|p: int| 0 <= p < matched@.len() && matched@[p] == e;
                        if p < pre.len() {
                            assert(pre.to_set().contains(e));
                        } else {
                            assert(e == s);
                            assert(candidates@.subrange(0, i + 1).to_set().contains(e));
                        }
                    }
                    assert forall|e: u32| (candidates@.subrange(0, i + 1).to_set().contains(e)
                            && in_matched(self.spec_predicates(), e, opt_row_view(old_row),
                                opt_row_view(new_row), changed_columns@))
                        implies matched@.to_set().contains(e) by {
                        if e == s {
                            assert(matched@[matched@.len() - 1] == e);
                        } else {
                            assert(candidates@.subrange(0, i as int).to_set().contains(e));
                            assert(pre.to_set().contains(e));
                            let p = choose|p: int| 0 <= p < pre.len() && pre[p] == e;
                            assert(matched@[p] == e);
                        }
                    }
                }
            } else {
                proof {
                    assert forall|e: u32| (candidates@.subrange(0, i + 1).to_set().contains(e)
                            && in_matched(self.spec_predicates(), e, opt_row_view(old_row),
                                opt_row_view(new_row), changed_columns@))
                        implies matched@.to_set().contains(e) by {
                        assert(e != s);
                        assert(candidates@.subrange(0, i as int).to_set().contains(e));
                    }
                }
            }
            i = i + 1;
        }
        let end = wall_clock_ns();
        self.metrics.record_route_hit(elapsed_ns(start, end), matched.len());
        proof {
            assert(candidates@.subrange(0, candidates@.len() as int) =~= candidates@);
            assert(matched@.to_set() =~= matched_set(
                self.spec_predicates(),
                cand_set,
                opt_row_view(old_row),
                opt_row_view(new_row),
                changed_columns@,
            ));
        }
        matched
    }

    /// Register a shape: parse its predicate, grow the predicate list so
    /// the id has a slot — unused slots hold the never-matching default —
    /// and append each fingerprint to the delta. A parse failure changes
    /// nothing. The presence filter is deliberately left alone until a
    /// rebuild.
    pub fn add_shape(&mut self, shape_id: u32, predicate_bytes: &[u8], pk_hashes: &Vec<u64>)
        -> (r: Result<(), String>)
        requires
            old(self).wf(),
            shape_id < u32::MAX,
        ensures
            final(self).wf(),
            final(self).spec_presence() == old(self).spec_presence(),
            final(self).spec_metrics() == old(self).spec_metrics(),
            r is Err <==> spec_dec_predicate(predicate_bytes@) is None,
            r is Err ==> *final(self) == *old(self),
            r is Ok ==> {
                &&& final(self).spec_index().base_map() == old(self).spec_index().base_map()
                &&& final(self).spec_index().tombstone_set()
                    == old(self).spec_index().tombstone_set()
                &&& final(self).spec_index().delta_map() == delta_after_adds(
                    old(self).spec_index().delta_map(),
                    pk_hashes@,
                    shape_id,
                )
                &&& final(self).spec_predicates().len() == (if old(self).spec_predicates().len()
                    > shape_id + 1 {
                    old(self).spec_predicates().len() as int
                } else {
                    shape_id + 1
                })
                &&& spec_dec_predicate(predicate_bytes@) == Some((
                    final(self).spec_predicates()[shape_id as int].spec_code(),
                    final(self).spec_predicates()[shape_id as int].spec_cols(),
                    consts_view(final(self).spec_predicates()[shape_id as int].spec_consts()),
                ))
                &&& forall|k: int| 0 <= k < old(self).spec_predicates().len() && k != shape_id
                    ==> final(self).spec_predicates()[k] == old(self).spec_predicates()[k]
                &&& forall|k: int| old(self).spec_predicates().len() <= k
                    < final(self).spec_predicates().len() && k != shape_id
                    ==> (#[trigger] final(self).spec_predicates()[k]).spec_code()
                        == Seq::<crate::predicate::Instruction>::empty()
            },
    {
        let predicate = match CompiledPredicate::deserialize(predicate_bytes) {
            Ok(p) => p,
            Err(e) => {
                return Err(e);
            }
        };
        let ghost preds0 = self.predicates@;
        while self.predicates.len() < shape_id as usize + 1
            invariant
                shape_id < u32::MAX,
                self.index == old(self).index,
                self.presence == old(self).presence,
                self.metrics == old(self).metrics,
                preds0.len() <= self.predicates@.len(),
                self.predicates@.len() <= (if preds0.len() > shape_id + 1 {
                    preds0.len() as int
                } else {
                    shape_id + 1
                }),
                forall|k: int| 0 <= k < preds0.len()
                    ==> #[trigger] self.predicates@[k] == preds0[k],
                forall|k: int| preds0.len() <= k < self.predicates@.len()
                    ==> (#[trigger] self.predicates@[k]).spec_code()
                        == Seq::<crate::predicate::Instruction>::empty(),
            decreases shape_id + 1 - self.predicates@.len(),
        {
            self.predicates.push(CompiledPredicate::default());
        }
        self.predicates.set(shape_id as usize, predicate);
        let ghost preds1 = self.predicates@;
        let ghost d0 = self.index.delta_map();
        proof {
            assert(pk_hashes@.subrange(0, 0) =~= Seq::<u64>::empty());
        }
        let mut i: usize = 0;
        while i < pk_hashes.len()
            invariant
                i <= pk_hashes@.len(),
                self.predicates@ == preds1,
                self.presence == old(self).presence,
                self.metrics == old(self).metrics,
                self.index.wf(),
                self.index.base_map() == old(self).spec_index().base_map(),
                self.index.tombstone_set() == old(self).spec_index().tombstone_set(),
                d0 == old(self).spec_index().delta_map(),
                self.index.delta_map() == delta_after_adds(
                    d0,
                    pk_hashes@.subrange(0, i as int),
                    shape_id,
                ),
            decreases pk_hashes@.len() - i,
        {
            self.index.add_to_delta(pk_hashes[i], shape_id);
            proof {
                assert(pk_hashes@.subrange(0, i + 1).drop_last()
                    =~= pk_hashes@.subrange(0, i as int));
                assert(pk_hashes@.subrange(0, i + 1).last() == pk_hashes@[i as int]);
            }
            i = i + 1;
        }
        proof {
            assert(pk_hashes@.subrange(0, pk_hashes@.len() as int) =~= pk_hashes@);
        }
        Ok(())
    }

    /// Mark a shape deleted; its id is filtered from every later lookup.
    /// Idempotent.
    pub fn remove_shape(&mut self, shape_id: u32)
        requires
            old(self).wf(),
        ensures
            final(self).wf(),
            final(self).spec_presence() == old(self).spec_presence(),
            final(self).spec_predicates() == old(self).spec_predicates(),
            final(self).spec_metrics() == old(self).spec_metrics(),
            final(self).spec_index().base_map() == old(self).spec_index().base_map(),
            final(self).spec_index().delta_map() == old(self).spec_index().delta_map(),
            final(self).spec_index().tombstone_set()
                == old(self).spec_index().tombstone_set().insert(shape_id),
    {
        self.index.mark_shape_deleted(shape_id);
    }

    /// Build a fresh presence filter over every present key and swap it in.
    /// On failure the old filter stays; the delta is never cleared here.
    pub fn rebuild(&mut self) -> (r: Result<(), String>)
        requires
            old(self).wf(),
        ensures
            final(self).wf(),
            final(self).spec_index() == old(self).spec_index(),
            final(self).spec_predicates() == old(self).spec_predicates(),
            r is Ok ==> {
                &&& forall|h: u64| old(self).spec_index().base_map().dom().contains(h)
                    || old(self).spec_index().delta_map().dom().contains(h)
                    ==> #[trigger] final(self).spec_presence().contains(h)
                &&& final(self).spec_metrics().rebuilds
                    == tally(old(self).spec_metrics().rebuilds)
                &&& final(self).spec_metrics().presence_checks
                    == old(self).spec_metrics().presence_checks
                &&& final(self).spec_metrics().presence_hits
                    == old(self).spec_metrics().presence_hits
                &&& final(self).spec_metrics().route_calls
                    == old(self).spec_metrics().route_calls
                &&& final(self).spec_metrics().route_hits
                    == old(self).spec_metrics().route_hits
                &&& final(self).spec_metrics().route_misses
                    == old(self).spec_metrics().route_misses
                &&& final(self).spec_metrics().false_positives
                    == old(self).spec_metrics().false_positives
                &&& final(self).spec_metrics().total_shapes_matched
                    == old(self).spec_metrics().total_shapes_matched
            },
            r is Err ==> final(self).spec_presence() == old(self).spec_presence()
                && final(self).spec_metrics() == old(self).spec_metrics(),
            (forall|ks: Seq<u64>| #![trigger ks.to_set()]
                crate::shape_set::sorted_strict_keys(ks)
                    && ks.to_set() == old(self).spec_index().base_map().dom().union(
                        old(self).spec_index().delta_map().dom(),
                    )
                ==> (r is Ok <==> (ks.len() == 0
                    || crate::presence::fuse_build_ok(ks)))),
    {
        let start = wall_clock_ns();
        let keys = self.index.collect_all_present_keys();
        proof {
            crate::shape_set::lemma_sorted_keys_distinct(keys@);
        }
        let new_presence = match PresenceFilter::build(&keys) {
            Ok(f) => f,
            Err(e) => {
                proof {
                    assert forall|ks: Seq<u64>| #![trigger ks.to_set()]
                        crate::shape_set::sorted_strict_keys(ks)
                            && ks.to_set() == old(self).spec_index().base_map().dom().union(
                                old(self).spec_index().delta_map().dom(),
                            )
                        implies !(ks.len() == 0 || crate::presence::fuse_build_ok(ks)) by {
                        crate::shape_set::lemma_sorted_keys_unique(ks, keys@);
                    }
                }
                return Err(e);
            }
        };
        self.presence = new_presence;
        let end = wall_clock_ns();
        self.metrics.record_rebuild(elapsed_ns(start, end), keys.len());
        proof {
            assert forall|h: u64| old(self).spec_index().base_map().dom().contains(h)
                || old(self).spec_index().delta_map().dom().contains(h)
                implies #[trigger] self.spec_presence().contains(h) by {
                assert(keys@.to_set().contains(h));
                let k = choose|k: int| 0 <= k < keys@.len() && keys@[k] == h;
                assert(self.spec_presence().contains(keys@[k]));
            }
            assert forall|ks: Seq<u64>| #![trigger ks.to_set()]
                crate::shape_set::sorted_strict_keys(ks)
                    && ks.to_set() == old(self).spec_index().base_map().dom().union(
                        old(self).spec_index().delta_map().dom(),
                    )
                implies ks.len() == 0 || crate::presence::fuse_build_ok(ks) by {
                crate::shape_set::lemma_sorted_keys_unique(ks, keys@);
            }
        }
        Ok(())
    }

    /// A copy of the metrics counters.
    pub fn get_metrics(&self) -> (r: MetricsSnapshot)
        ensures
            r == self.spec_metrics(),
    {
        self.metrics.snapshot()
    }
}

/// Whether shape `s` passes the predicate stage.
pub open spec fn in_matched(
    preds: Seq<CompiledPredicate>,
    s: u32,
    old_row: Option<Seq<u8>>,
    new_row: Option<Seq<u8>>,
    changed: Seq<u16>,
) -> bool {
    &&& (s as int) < preds.len()
    &&& cols_intersect(preds[s as int].spec_cols(), changed)
    &&& preds[s as int].spec_matches(old_row, new_row)
}

/// The counters after one route call: a presence check always; then either
/// a miss, a false positive, or a hit with the matched count.
pub open spec fn spec_route_counters(
    c: (u64, u64, u64, u64, u64, u64, u64, u64),
    presence_hit: bool,
    lookup: Option<Set<u32>>,
    matched: nat,
) -> (u64, u64, u64, u64, u64, u64, u64, u64) {
    if !presence_hit {
        (tally(c.0), c.1, tally(c.2), c.3, tally(c.4), c.5, c.6, c.7)
    } else if lookup is None {
        (tally(c.0), tally(c.1), c.2, c.3, c.4, tally(c.5), c.6, c.7)
    } else {
        (
            tally(c.0),
            tally(c.1),
            tally(c.2),
            tally(c.3),
            c.4,
            c.5,
            c.6,
            (if c.7 + matched <= u64::MAX {
                (c.7 + matched) as u64
            } else {
                u64::MAX
            }),
        )
    }
}

/// Routing twice with the same arguments against the same state returns the
/// identical list, and moves the counters by the same deltas: the result is
/// a function of the routing state and the arguments alone.
pub proof fn lemma_route_idempotent(
    router: ShapeRouter,
    pk_hash: u64,
    old_row: Option<Seq<u8>>,
    new_row: Option<Seq<u8>>,
    changed: Seq<u16>,
    r1: Seq<u32>,
    r2: Seq<u32>,
)
    requires
        sorted_strict(r1),
        r1.to_set() == router.spec_route(pk_hash, old_row, new_row, changed),
        sorted_strict(r2),
        r2.to_set() == router.spec_route(pk_hash, old_row, new_row, changed),
    ensures
        r1 == r2,
        spec_route_counters(
            spec_counters(router.spec_metrics()),
            router.spec_presence().contains(pk_hash),
            router.spec_index().spec_lookup(pk_hash),
            r1.len(),
        ) == spec_route_counters(
            spec_counters(router.spec_metrics()),
            router.spec_presence().contains(pk_hash),
            router.spec_index().spec_lookup(pk_hash),
            r2.len(),
        ),
{
    lemma_sorted_strict_unique(r1, r2);
}

/// A shape whose referenced columns are disjoint from the changed columns
/// is excluded from the route result outright: its predicate's verdict
/// cannot influence the outcome, so skipping the evaluation is
/// observationally equivalent to running it.
pub proof fn lemma_skip_observational(
    preds: Seq<CompiledPredicate>,
    cands: Set<u32>,
    old_row: Option<Seq<u8>>,
    new_row: Option<Seq<u8>>,
    changed: Seq<u16>,
    s: u32,
)
    requires
        (s as int) < preds.len(),
        preds[s as int].spec_cols().len() > 0,
        !cols_intersect(preds[s as int].spec_cols(), changed),
    ensures
        !matched_set(preds, cands, old_row, new_row, changed).contains(s),
{
}

} // verus!
