//! The shape index behind the router: an immutable base map under a mutable
//! delta overlay, with a tombstone set of shape ids that were removed since
//! the last rebuild.

use vstd::prelude::*;
use crate::assoc::{assoc_map, distinct_keys, assoc_find, lemma_assoc_index, lemma_assoc_absent,
    lemma_assoc_member, lemma_assoc_dom_len, lemma_assoc_update, lemma_assoc_push};
use crate::shape_set::{sorted_strict, sorted_strict_keys, insert_shape, insert_key,
    contains_shape};
use crate::varint;

verus! {

/// A fingerprint-to-shape-set table backed by an association vector with
/// sorted, duplicate-free values.
pub open spec fn table_wf(s: Seq<(u64, Vec<u32>)>) -> bool {
    &&& distinct_keys(s)
    &&& forall|i: int| 0 <= i < s.len() ==> sorted_strict((#[trigger] s[i]).1@)
}

/// Such a table as a map from fingerprint to id set.
pub open spec fn table_map(s: Seq<(u64, Vec<u32>)>) -> Map<u64, Set<u32>> {
    Map::new(
        |h: u64| assoc_map(s).dom().contains(h),
        |h: u64| assoc_map(s)[h]@.to_set(),
    )
}

/// The immutable base tier: an exact fingerprint → shape-id map, wholly
/// replaced when the router rebuilds.
#[derive(Debug)]
struct BaseIndex {
    map: Vec<(u64, Vec<u32>)>,
}

impl BaseIndex {
    spec fn view_map(self) -> Map<u64, Set<u32>> {
        table_map(self.map@)
    }

    spec fn wf(self) -> bool {
        table_wf(self.map@)
    }

    fn lookup(&self, pk_hash: u64) -> (r: Option<Vec<u32>>)
        requires
            self.wf(),
        ensures
            match r {
                Some(ids) => self.view_map().dom().contains(pk_hash)
                    && sorted_strict(ids@) && ids@.to_set() == self.view_map()[pk_hash],
                None => !self.view_map().dom().contains(pk_hash),
            },
    {
        match assoc_find(&self.map, pk_hash) {
            Some(i) => {
                proof {
                    lemma_assoc_index(self.map@, i as int);
                }
                Some(vstd::slice::slice_to_vec(self.map[i].1.as_slice()))
            }
            None => {
                proof {
                    lemma_assoc_absent(self.map@, pk_hash);
                }
                None
            }
        }
    }

    fn all_keys(&self) -> (r: Vec<u64>)
        requires
            self.wf(),
        ensures
            sorted_strict_keys(r@),
            r@.to_set() == self.view_map().dom(),
    {
        collect_keys(&self.map)
    }
}

/// The mutable delta tier: shape ids appended since the last rebuild.
#[derive(Debug)]
pub struct DeltaOverlay {
    map: Vec<(u64, Vec<u32>)>,
}

impl DeltaOverlay {
    /// The delta as a map from fingerprint to id set.
    pub closed spec fn view_map(self) -> Map<u64, Set<u32>> {
        table_map(self.map@)
    }

    /// Keys distinct; values sorted and duplicate-free.
    pub closed spec fn wf(self) -> bool {
        table_wf(self.map@)
    }

    /// An empty delta.
    pub fn new() -> (r: Self)
        ensures
            r.wf(),
            r.view_map() == Map::<u64, Set<u32>>::empty(),
    {
        let r = DeltaOverlay { map: Vec::new() };
        proof {
            assert(r.view_map() =~= Map::<u64, Set<u32>>::empty());
        }
        r
    }

    /// Append `shape_id` to the key's list; a repeated id is kept once.
    pub fn add(&mut self, pk_hash: u64, shape_id: u32)
        requires
            old(self).wf(),
        ensures
            final(self).wf(),
            final(self).view_map() == old(self).view_map().insert(
                pk_hash,
                delta_added(old(self).view_map(), pk_hash, shape_id),
            ),
    {
        let ghost m0 = self.map@;
        match assoc_find(&self.map, pk_hash) {
            Some(i) => {
                proof {
                    lemma_assoc_index(m0, i as int);
                }
                let slot = &mut self.map[i].1;
                insert_shape(slot, shape_id);
                proof {
                    let m1 = self.map@;
                    assert(m1 == m0.update(i as int, (m0[i as int].0, m1[i as int].1)));
                    lemma_assoc_update(m0, i as int, m1[i as int].1);
                    assert(self.view_map() =~= old(self).view_map().insert(
                        pk_hash,
                        delta_added(old(self).view_map(), pk_hash, shape_id),
                    ));
                }
            }
            None => {
                let mut ids: Vec<u32> = Vec::new();
                ids.push(shape_id);
                proof {
                    assert(sorted_strict(ids@));
                    assert(ids@.to_set() =~= Set::empty().insert(shape_id)) by {
                        assert(ids@[0] == shape_id);
                        assert forall|e: u32| Set::empty().insert(shape_id).contains(e)
                            implies ids@.to_set().contains(e) by {
                            assert(ids@[0] == e);
                        }
                    }
                    lemma_assoc_absent(m0, pk_hash);
                    lemma_assoc_push(m0, pk_hash, ids);
                }
                self.map.push((pk_hash, ids));
                proof {
                    assert(self.view_map() =~= old(self).view_map().insert(
                        pk_hash,
                        delta_added(old(self).view_map(), pk_hash, shape_id),
                    ));
                }
            }
        }
    }

    /// The id set appended for a key, ascending, or `None`.
    pub fn lookup(&self, pk_hash: u64) -> (r: Option<Vec<u32>>)
        requires
            self.wf(),
        ensures
            match r {
                Some(ids) => self.view_map().dom().contains(pk_hash)
                    && sorted_strict(ids@) && ids@.to_set() == self.view_map()[pk_hash],
                None => !self.view_map().dom().contains(pk_hash),
            },
    {
        match assoc_find(&self.map, pk_hash) {
            Some(i) => {
                proof {
                    lemma_assoc_index(self.map@, i as int);
                }
                Some(vstd::slice::slice_to_vec(self.map[i].1.as_slice()))
            }
            None => {
                proof {
                    lemma_assoc_absent(self.map@, pk_hash);
                }
                None
            }
        }
    }

    /// Every key of the delta, ascending.
    pub fn all_keys(&self) -> (r: Vec<u64>)
        requires
            self.wf(),
        ensures
            sorted_strict_keys(r@),
            r@.to_set() == self.view_map().dom(),
    {
        collect_keys(&self.map)
    }

    /// How many keys the delta holds.
    pub fn size(&self) -> (r: usize)
        requires
            self.wf(),
        ensures
            r == self.view_map().dom().len(),
    {
        proof {
            lemma_assoc_dom_len(self.map@);
            assert(self.view_map().dom() =~= assoc_map(self.map@).dom());
        }
        self.map.len()
    }
}

/// What a delta slot holds after an append: the old set plus the id.
pub open spec fn delta_added(m: Map<u64, Set<u32>>, h: u64, shape_id: u32) -> Set<u32> {
    if m.dom().contains(h) {
        m[h].insert(shape_id)
    } else {
        Set::empty().insert(shape_id)
    }
}

/// The keys of a table, ascending.
fn collect_keys(map: &Vec<(u64, Vec<u32>)>) -> (r: Vec<u64>)
    requires
        distinct_keys(map@),
    ensures
        sorted_strict_keys(r@),
        r@.to_set() == table_map(map@).dom(),
{
    let mut out: Vec<u64> = Vec::new();
    let mut i: usize = 0;
    while i < map.len()
        invariant
            i <= map@.len(),
            distinct_keys(map@),
            sorted_strict_keys(out@),
            forall|h: u64| out@.to_set().contains(h) <==> exists|k: int|
                0 <= k < i && (#[trigger] map@[k]).0 == h,
        decreases map@.len() - i,
    {
        let ghost pre = out@;
        insert_key(&mut out, map[i].0);
        proof {
            assert forall|h: u64| out@.to_set().contains(h) implies exists|k: int|
                0 <= k < i + 1 && (#[trigger] map@[k]).0 == h by {
                if pre.to_set().contains(h) {
                    let k = choose|k: int| 0 <= k < i && (#[trigger] map@[k]).0 == h;
                    assert(map@[k].0 == h);
                } else {
                    assert(map@[i as int].0 == h);
                }
            }
        }
        i = i + 1;
    }
    proof {
        assert(out@.to_set() =~= table_map(map@).dom()) by {
            assert forall|h: u64| out@.to_set().contains(h)
                implies table_map(map@).dom().contains(h) by {
                let k = choose|k: int| 0 <= k < map@.len() && (#[trigger] map@[k]).0 == h;
                lemma_assoc_index(map@, k);
            }
            assert forall|h: u64| table_map(map@).dom().contains(h)
                implies out@.to_set().contains(h) by {
                lemma_assoc_member(map@, h);
            }
        }
    }
    out
}

/// Two-tier fingerprint → shape-id index: delta over base, with shape-level
/// tombstones applied at lookup.
#[derive(Debug)]
pub struct ShapeIndex {
    base: Option<BaseIndex>,
    delta: DeltaOverlay,
    tombstones: Vec<u32>,
}

impl ShapeIndex {
    /// The delta tier as a map.
    pub closed spec fn delta_map(self) -> Map<u64, Set<u32>> {
        self.delta.view_map()
    }

    /// The base tier as a map; empty while no base was built.
    pub closed spec fn base_map(self) -> Map<u64, Set<u32>> {
        match self.base {
            Some(b) => b.view_map(),
            None => Map::empty(),
        }
    }

    /// The shape ids removed since the last rebuild.
    pub closed spec fn tombstone_set(self) -> Set<u32> {
        self.tombstones@.to_set()
    }

    /// What a lookup of `pk_hash` yields: the delta's set where the delta
    /// holds the key, else the base's, each less the tombstoned ids.
    pub open spec fn spec_lookup(self, pk_hash: u64) -> Option<Set<u32>> {
        if self.delta_map().dom().contains(pk_hash) {
            Some(self.delta_map()[pk_hash].difference(self.tombstone_set()))
        } else if self.base_map().dom().contains(pk_hash) {
            Some(self.base_map()[pk_hash].difference(self.tombstone_set()))
        } else {
            None
        }
    }

    /// Both tiers are well formed and the tombstone vector is a shape-set.
    pub closed spec fn wf(self) -> bool {
        &&& self.delta.wf()
        &&& match self.base {
            Some(b) => b.wf(),
            None => true,
        }
        &&& sorted_strict(self.tombstones@)
    }

    /// A fresh index: no base, an empty delta, no tombstones.
    pub fn new() -> (r: Self)
        ensures
            r.wf(),
            r.delta_map() == Map::<u64, Set<u32>>::empty(),
            r.base_map() == Map::<u64, Set<u32>>::empty(),
            r.tombstone_set() == Set::<u32>::empty(),
            forall|h: u64| #[trigger] r.spec_lookup(h) is None,
    {
        let r = ShapeIndex { base: None, delta: DeltaOverlay::new(), tombstones: Vec::new() };
        proof {
            assert(r.tombstone_set() =~= Set::<u32>::empty());
        }
        r
    }

    /// The candidate shape ids for a fingerprint, tombstones filtered out,
    /// ascending; the returned set may be empty when every id was removed.
    pub fn lookup(&self, pk_hash: u64) -> (r: Option<Vec<u32>>)
        requires
            self.wf(),
        ensures
            match r {
                Some(ids) => {
                    &&& self.spec_lookup(pk_hash) is Some
                    &&& sorted_strict(ids@)
                    &&& ids@.to_set() == self.spec_lookup(pk_hash).unwrap()
                },
                None => self.spec_lookup(pk_hash) is None,
            },
    {
        if let Some(ids) = self.delta.lookup(pk_hash) {
            return Some(self.filter_tombstones(ids));
        }
        if let Some(base) = &self.base {
            if let Some(ids) = base.lookup(pk_hash) {
                return Some(self.filter_tombstones(ids));
            }
        }
        None
    }

    /// Append a `(pk_hash, shape_id)` pair to the delta; repeats are
    /// tolerated and kept once.
    pub fn add_to_delta(&mut self, pk_hash: u64, shape_id: u32)
        requires
            old(self).wf(),
        ensures
            final(self).wf(),
            final(self).base_map() == old(self).base_map(),
            final(self).tombstone_set() == old(self).tombstone_set(),
            final(self).delta_map() == old(self).delta_map().insert(
                pk_hash,
                delta_added(old(self).delta_map(), pk_hash, shape_id),
            ),
    {
        self.delta.add(pk_hash, shape_id);
    }

    /// Mark a shape id as deleted; idempotent.
    pub fn mark_shape_deleted(&mut self, shape_id: u32)
        requires
            old(self).wf(),
        ensures
            final(self).wf(),
            final(self).base_map() == old(self).base_map(),
            final(self).delta_map() == old(self).delta_map(),
            final(self).tombstone_set() == old(self).tombstone_set().insert(shape_id),
    {
        insert_shape(&mut self.tombstones, shape_id);
    }

    /// Every fingerprint either tier holds, ascending. Tombstones do not
    /// remove keys from this set: a deleted shape does not empty a key's
    /// mapping.
    pub fn collect_all_present_keys(&self) -> (r: Vec<u64>)
        requires
            self.wf(),
        ensures
            sorted_strict_keys(r@),
            r@.to_set() == self.base_map().dom().union(self.delta_map().dom()),
    {
        let mut keys: Vec<u64> = match &self.base {
            Some(b) => b.all_keys(),
            None => Vec::new(),
        };
        proof {
            assert(keys@.to_set() =~= self.base_map().dom());
        }
        let delta_keys = self.delta.all_keys();
        let mut i: usize = 0;
        while i < delta_keys.len()
            invariant
                i <= delta_keys@.len(),
                sorted_strict_keys(keys@),
                sorted_strict_keys(delta_keys@),
                keys@.to_set() == self.base_map().dom().union(
                    delta_keys@.subrange(0, i as int).to_set(),
                ),
                delta_keys@.to_set() == self.delta_map().dom(),
            decreases delta_keys@.len() - i,
        {
            insert_key(&mut keys, delta_keys[i]);
            proof {
                Seq::<u64>::lemma_to_set_insert_commutes(
                    delta_keys@.subrange(0, i as int),
                    delta_keys@[i as int],
                );
                assert(delta_keys@.subrange(0, i + 1)
                    =~= delta_keys@.subrange(0, i as int) + seq![delta_keys@[i as int]]);
                assert(keys@.to_set() =~= self.base_map().dom().union(
                    delta_keys@.subrange(0, i + 1).to_set(),
                ));
            }
            i = i + 1;
        }
        proof {
            assert(delta_keys@.subrange(0, delta_keys@.len() as int) =~= delta_keys@);
        }
        keys
    }

    /// How many keys the delta holds, for rebuild policy.
    pub fn delta_size(&self) -> (r: usize)
        requires
            self.wf(),
        ensures
            r == self.delta_map().dom().len(),
    {
        self.delta.size()
    }

    /// How many shape ids are tombstoned.
    pub fn tombstone_count(&self) -> (r: usize)
        requires
            self.wf(),
        ensures
            r == self.tombstone_set().len(),
    {
        proof {
            assert(self.tombstones@.no_duplicates());
            self.tombstones@.unique_seq_to_set();
        }
        self.tombstones.len()
    }

    /// The given ids less the tombstoned ones, order kept.
    fn filter_tombstones(&self, ids: Vec<u32>) -> (r: Vec<u32>)
        requires
            self.wf(),
            sorted_strict(ids@),
        ensures
            sorted_strict(r@),
            r@.to_set() == ids@.to_set().difference(self.tombstone_set()),
    {
        let mut out: Vec<u32> = Vec::new();
        let mut i: usize = 0;
        while i < ids.len()
            invariant
                i <= ids@.len(),
                self.wf(),
                sorted_strict(ids@),
                out@.len() <= i,
                forall|p: int, q: int| 0 <= p < q < out@.len() ==> out@[p] < out@[q],
                forall|e: u32| #[trigger] out@.to_set().contains(e) <==> (
                    ids@.subrange(0, i as int).to_set().contains(e)
                        && !self.tombstone_set().contains(e)
                ),
                forall|p: int| 0 <= p < out@.len() ==> out@[p] <= ids@[i - 1],
            decreases ids@.len() - i,
        {
            let ghost pre = out@;
            proof {
                Seq::<u32>::lemma_to_set_insert_commutes(
                    ids@.subrange(0, i as int),
                    ids@[i as int],
                );
                assert(ids@.subrange(0, i + 1)
                    =~= ids@.subrange(0, i as int) + seq![ids@[i as int]]);
                assert(ids@.subrange(0, i + 1).to_set()
                    =~= ids@.subrange(0, i as int).to_set().insert(ids@[i as int]));
            }
            if !contains_shape(&self.tombstones, ids[i]) {
                proof {
                    assert forall|p: int| 0 <= p < pre.len() implies pre[p] < ids@[i as int] by {
                        assert(pre[p] <= ids@[i - 1]);
                        assert(ids@[i - 1] < ids@[i as int]);
                    }
                }
                out.push(ids[i]);
                proof {
                    assert forall|e: u32| #![trigger out@.to_set().contains(e)]
                        out@.to_set().contains(e) implies (
                        ids@.subrange(0, i + 1).to_set().contains(e)
                            && !self.tombstone_set().contains(e)
                    ) by {
                        assert(out@.contains(e));
                        let p = choose|p: int| 0 <= p < out@.len() && out@[p] == e;
                        if p < pre.len() {
                            assert(pre[p] == e);
                            assert(pre.to_set().contains(e));
                            assert(ids@.subrange(0, i as int).contains(e));
                            let k = choose|k: int|
                                0 <= k < i && ids@.subrange(0, i as int)[k] == e;
                            assert(ids@.subrange(0, i + 1)[k] == e);
                            assert(ids@.subrange(0, i + 1).to_set().contains(e));
                        } else {
                            assert(e == ids@[i as int]);
                            assert(ids@.subrange(0, i + 1)[i as int] == e);
                            assert(ids@.subrange(0, i + 1).to_set().contains(e));
                        }
                    }
                    assert forall|e: u32| #![trigger out@.to_set().contains(e)]
                        (ids@.subrange(0, i + 1).to_set().contains(e)
                            && !self.tombstone_set().contains(e))
                        implies out@.to_set().contains(e) by {
                        assert(ids@.subrange(0, i + 1).contains(e));
                        let sub1 = ids@.subrange(0, i + 1);
                        let k = choose|k: int| 0 <= k < sub1.len() && sub1[k] == e;
                        if k < i {
                            assert(ids@.subrange(0, i as int)[k] == e);
                            assert(ids@.subrange(0, i as int).to_set().contains(e));
                            assert(pre.to_set().contains(e));
                            let p = choose|p: int| 0 <= p < pre.len() && pre[p] == e;
                            assert(out@[p] == e);
                        } else {
                            assert(e == ids@[i as int]);
                            assert(out@[out@.len() - 1] == e);
                        }
                    }
                }
            } else {
                proof {
                    assert forall|e: u32| #![trigger out@.to_set().contains(e)]
                        out@.to_set().contains(e) implies (
                        ids@.subrange(0, i + 1).to_set().contains(e)
                            && !self.tombstone_set().contains(e)
                    ) by {
                        assert(pre.to_set().contains(e));
                        assert(ids@.subrange(0, i as int).contains(e));
                        let k = choose|k: int|
                            0 <= k < i && ids@.subrange(0, i as int)[k] == e;
                        assert(ids@.subrange(0, i + 1)[k] == e);
                        assert(ids@.subrange(0, i + 1).to_set().contains(e));
                    }
                    assert forall|e: u32| #![trigger out@.to_set().contains(e)]
                        (ids@.subrange(0, i + 1).to_set().contains(e)
                            && !self.tombstone_set().contains(e))
                        implies out@.to_set().contains(e) by {
                        assert(e != ids@[i as int]);
                        assert(ids@.subrange(0, i + 1).contains(e));
                        let sub1 = ids@.subrange(0, i + 1);
                        let k = choose|k: int| 0 <= k < sub1.len() && sub1[k] == e;
                        assert(k < i);
                        assert(ids@.subrange(0, i as int)[k] == e);
                        assert(ids@.subrange(0, i as int).to_set().contains(e));
                    }
                    assert forall|p: int| 0 <= p < out@.len()
                        implies out@[p] <= ids@[i as int] by {
                        assert(out@[p] <= ids@[i - 1]);
                        assert(ids@[i - 1] < ids@[i as int]);
                    }
                }
            }
            i = i + 1;
        }
        proof {
            assert(ids@.subrange(0, ids@.len() as int) =~= ids@);
        }
        out
    }
}

/// A packed pool of varint-encoded shape-id lists, each written as a length
/// prefix and then the ids, and addressed by byte offset.
#[derive(Debug)]
pub struct ShapeIdPool {
    data: Vec<u8>,
}

/// The encoding of an id list's payload: each id as a varint, in order.
pub open spec fn uleb_list(s: Seq<u32>) -> Seq<u8>
    decreases s.len(),
{
    if s.len() == 0 {
        Seq::empty()
    } else {
        uleb_list(s.drop_last()) + varint::uleb(s.last())
    }
}

/// What reading `count` varints from `data` at `cursor` yields; a read past
/// a malformed byte stops early.
pub open spec fn spec_decode_items(data: Seq<u8>, cursor: int, count: int) -> Seq<u32>
    decreases count,
{
    if count <= 0 || cursor < 0 || cursor > data.len() {
        Seq::empty()
    } else {
        match varint::spec_decode(data.skip(cursor)) {
            Ok((v, used)) => seq![v] + spec_decode_items(data, cursor + used, count - 1),
            Err(_) => Seq::empty(),
        }
    }
}

/// What decoding a list at `offset` yields: a length prefix, then that many
/// varints.
pub open spec fn spec_decode_list(data: Seq<u8>, offset: int) -> Seq<u32> {
    if 0 <= offset <= data.len() {
        match varint::spec_decode(data.skip(offset)) {
            Ok((count, used)) => spec_decode_items(data, offset + used, count as int),
            Err(_) => Seq::empty(),
        }
    } else {
        Seq::empty()
    }
}

impl ShapeIdPool {
    /// The pool's raw bytes.
    pub closed spec fn spec_data(self) -> Seq<u8> {
        self.data@
    }

    /// An empty pool.
    pub fn new() -> (r: Self)
        ensures
            r.spec_data() == Seq::<u8>::empty(),
    {
        ShapeIdPool { data: Vec::new() }
    }

    /// Append an id list and return the byte offset it was written at.
    pub fn encode_shapes(&mut self, shapes: &Vec<u32>) -> (r: u32)
        requires
            old(self).spec_data().len() <= u32::MAX,
            shapes@.len() <= u32::MAX,
        ensures
            r == old(self).spec_data().len(),
            final(self).spec_data() == old(self).spec_data()
                + varint::uleb(shapes@.len() as u32) + uleb_list(shapes@),
    {
        let offset = self.data.len() as u32;
        varint::encode_u32(&mut self.data, shapes.len() as u32);
        let ghost after_len = self.data@;
        let mut i: usize = 0;
        while i < shapes.len()
            invariant
                i <= shapes@.len(),
                self.data@ == after_len + uleb_list(shapes@.subrange(0, i as int)),
            decreases shapes@.len() - i,
        {
            varint::encode_u32(&mut self.data, shapes[i]);
            proof {
                assert(shapes@.subrange(0, i + 1).drop_last() =~= shapes@.subrange(0, i as int));
                assert(shapes@.subrange(0, i + 1).last() == shapes@[i as int]);
                assert(self.data@ =~= after_len + uleb_list(shapes@.subrange(0, i + 1)));
            }
            i = i + 1;
        }
        proof {
            assert(shapes@.subrange(0, shapes@.len() as int) =~= shapes@);
            assert(uleb_list(shapes@.subrange(0, 0)) =~= Seq::<u8>::empty());
            assert(after_len =~= old(self).spec_data() + varint::uleb(shapes@.len() as u32));
        }
        offset
    }

    /// Read the id list written at `offset`; a malformed or foreign offset
    /// yields whatever prefix decodes, possibly nothing.
    pub fn decode_shapes(&self, offset: u32) -> (r: Vec<u32>)
        ensures
            r@ == spec_decode_list(self.spec_data(), offset as int),
    {
        let mut out: Vec<u32> = Vec::new();
        if offset as usize > self.data.len() {
            proof {
                assert(spec_decode_list(self.spec_data(), offset as int) =~= Seq::<u32>::empty());
            }
            return out;
        }
        let tail = vstd::slice::slice_subrange(
            self.data.as_slice(),
            offset as usize,
            self.data.len(),
        );
        proof {
            assert(tail@ =~= self.data@.skip(offset as int));
        }
        let (count, used) = match varint::decode_u32(tail) {
            Ok(p) => p,
            Err(_) => {
                proof {
                    assert(spec_decode_list(self.spec_data(), offset as int)
                        =~= Seq::<u32>::empty());
                }
                return out;
            }
        };
        proof {
            varint::lemma_decode_bounds(tail@);
        }
        let mut cursor: usize = offset as usize + used;
        let mut remaining: u32 = count;
        proof {
            assert(spec_decode_list(self.spec_data(), offset as int)
                == spec_decode_items(self.spec_data(), cursor as int, remaining as int));
            assert(out@ + spec_decode_items(self.spec_data(), cursor as int, remaining as int)
                =~= spec_decode_items(self.spec_data(), cursor as int, remaining as int));
        }
        while remaining > 0
            invariant
                cursor <= self.data@.len(),
                out@ + spec_decode_items(self.spec_data(), cursor as int, remaining as int)
                    == spec_decode_list(self.spec_data(), offset as int),
            decreases remaining,
        {
            let tail2 = vstd::slice::slice_subrange(
                self.data.as_slice(),
                cursor,
                self.data.len(),
            );
            proof {
                assert(tail2@ =~= self.data@.skip(cursor as int));
            }
            match varint::decode_u32(tail2) {
                Ok((v, u)) => {
                    proof {
                        varint::lemma_decode_bounds(tail2@);
                        assert(spec_decode_items(
                            self.spec_data(), cursor as int, remaining as int,
                        ) == seq![v] + spec_decode_items(
                            self.spec_data(), cursor + u, remaining - 1,
                        ));
                    }
                    let ghost pre = out@;
                    out.push(v);
                    proof {
                        assert(out@ =~= pre + seq![v]);
                        assert(out@ + spec_decode_items(
                            self.spec_data(), cursor + u, remaining - 1,
                        ) =~= pre + (seq![v] + spec_decode_items(
                            self.spec_data(), cursor + u, remaining - 1,
                        )));
                    }
                    cursor = cursor + u;
                    remaining = remaining - 1;
                }
                Err(_) => {
                    proof {
                        assert(spec_decode_items(
                            self.spec_data(),
                            cursor as int,
                            remaining as int,
                        ) =~= Seq::<u32>::empty());
                        assert(out@ + Seq::<u32>::empty() =~= out@);
                    }
                    return out;
                }
            }
        }
        proof {
            assert(spec_decode_items(self.spec_data(), cursor as int, 0) =~= Seq::<u32>::empty());
            assert(out@ + Seq::<u32>::empty() =~= out@);
        }
        out
    }

    /// How many bytes the pool holds.
    pub fn memory_bytes(&self) -> (r: usize)
        ensures
            r == self.spec_data().len(),
    {
        self.data.len()
    }
}

} // verus!
