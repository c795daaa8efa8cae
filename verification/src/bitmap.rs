//! A facade over compressed 32-bit integer sets. Every operation is pure:
//! the inputs are left untouched and a fresh set is handed back, so a host
//! can share handles freely.

use vstd::prelude::*;
use roaring::RoaringBitmap;
use crate::shape_set::sorted_strict;

verus! {

/// The compressed integer set this facade wraps.
#[verifier::external_type_specification]
#[verifier::external_body]
pub struct ExRoaringBitmap(RoaringBitmap);

/// The set of integers a bitmap holds.
pub uninterp spec fn rb_set(b: RoaringBitmap) -> Set<u32>;

/// Whether a byte string is a well-formed serialized bitmap.
pub uninterp spec fn rb_parse_ok(bytes: Seq<u8>) -> bool;

/// The set a well-formed serialized bitmap stands for.
pub uninterp spec fn rb_parse(bytes: Seq<u8>) -> Set<u32>;

/// The size of a bitmap's serialized form, in bytes. A function of the
/// bitmap value, not of the held set alone: two bitmaps holding the same
/// integers in different container layouts serialize to different sizes.
pub uninterp spec fn rb_serialized_size_of(b: RoaringBitmap) -> usize;

/// Relies on roaring's `RoaringBitmap::new`: a fresh bitmap holds nothing.
#[verifier::external_body]
fn rb_new() -> (r: RoaringBitmap)
    ensures
        rb_set(r) == Set::<u32>::empty(),
        rb_set(r).finite(),
{
    RoaringBitmap::new()
}

/// Relies on roaring's derived `Clone`: the copy holds the same integers.
#[verifier::external_body]
fn rb_clone(b: &RoaringBitmap) -> (r: RoaringBitmap)
    ensures
        rb_set(r) == rb_set(*b),
        rb_set(r).finite(),
{
    b.clone()
}

/// Relies on `RoaringBitmap::insert`: adds the value and reports whether it
/// was absent.
#[verifier::external_body]
fn rb_insert(b: &mut RoaringBitmap, value: u32) -> (r: bool)
    ensures
        rb_set(*final(b)) == rb_set(*old(b)).insert(value),
        rb_set(*final(b)).finite() == rb_set(*old(b)).finite(),
        r == !rb_set(*old(b)).contains(value),
{
    b.insert(value)
}

/// Relies on `RoaringBitmap::remove`: takes the value out and reports
/// whether it was present.
#[verifier::external_body]
fn rb_remove(b: &mut RoaringBitmap, value: u32) -> (r: bool)
    ensures
        rb_set(*final(b)) == rb_set(*old(b)).remove(value),
        rb_set(*final(b)).finite() == rb_set(*old(b)).finite(),
        r == rb_set(*old(b)).contains(value),
{
    b.remove(value)
}

/// Relies on `RoaringBitmap::contains`.
#[verifier::external_body]
fn rb_contains(b: &RoaringBitmap, value: u32) -> (r: bool)
    ensures
        r == rb_set(*b).contains(value),
{
    b.contains(value)
}

/// Relies on `RoaringBitmap::len`: the number of distinct integers held.
#[verifier::external_body]
fn rb_len(b: &RoaringBitmap) -> (r: u64)
    requires
        rb_set(*b).finite(),
    ensures
        r == rb_set(*b).len(),
{
    b.len()
}

/// Relies on `RoaringBitmap::is_empty`.
#[verifier::external_body]
fn rb_is_empty(b: &RoaringBitmap) -> (r: bool)
    ensures
        r <==> rb_set(*b) == Set::<u32>::empty(),
{
    b.is_empty()
}

/// Relies on `RoaringBitmap::min`: the smallest held integer, if any.
#[verifier::external_body]
fn rb_min(b: &RoaringBitmap) -> (r: Option<u32>)
    ensures
        match r {
            Some(m) => rb_set(*b).contains(m)
                && forall|e: u32| #[trigger] rb_set(*b).contains(e) ==> m <= e,
            None => rb_set(*b) == Set::<u32>::empty(),
        },
{
    b.min()
}

/// Relies on `RoaringBitmap::max`: the largest held integer, if any.
#[verifier::external_body]
fn rb_max(b: &RoaringBitmap) -> (r: Option<u32>)
    ensures
        match r {
            Some(m) => rb_set(*b).contains(m)
                && forall|e: u32| #[trigger] rb_set(*b).contains(e) ==> e <= m,
            None => rb_set(*b) == Set::<u32>::empty(),
        },
{
    b.max()
}

/// Relies on roaring's `BitOr` for `&RoaringBitmap`: set union.
#[verifier::external_body]
fn rb_or(a: &RoaringBitmap, b: &RoaringBitmap) -> (r: RoaringBitmap)
    ensures
        rb_set(r) == rb_set(*a).union(rb_set(*b)),
        rb_set(r).finite(),
{
    a | b
}

/// Relies on roaring's `BitAnd` for `&RoaringBitmap`: set intersection.
#[verifier::external_body]
fn rb_and(a: &RoaringBitmap, b: &RoaringBitmap) -> (r: RoaringBitmap)
    ensures
        rb_set(r) == rb_set(*a).intersect(rb_set(*b)),
        rb_set(r).finite(),
{
    a & b
}

/// Relies on roaring's `Sub` for `&RoaringBitmap`: set difference.
#[verifier::external_body]
fn rb_sub(a: &RoaringBitmap, b: &RoaringBitmap) -> (r: RoaringBitmap)
    ensures
        rb_set(r) == rb_set(*a).difference(rb_set(*b)),
        rb_set(r).finite(),
{
    a - b
}

/// Relies on roaring's `PartialEq`: bitmaps compare by their contents.
#[verifier::external_body]
fn rb_eq(a: &RoaringBitmap, b: &RoaringBitmap) -> (r: bool)
    ensures
        r <==> rb_set(*a) == rb_set(*b),
{
    a == b
}

/// Relies on `RoaringBitmap::is_subset`.
#[verifier::external_body]
fn rb_is_subset(a: &RoaringBitmap, b: &RoaringBitmap) -> (r: bool)
    ensures
        r == rb_set(*a).subset_of(rb_set(*b)),
{
    a.is_subset(b)
}

/// Relies on `RoaringBitmap::iter`, which yields the held integers ordered
/// by value.
#[verifier::external_body]
fn rb_to_vec(b: &RoaringBitmap) -> (r: Vec<u32>)
    ensures
        sorted_strict(r@),
        r@.to_set() == rb_set(*b),
{
    b.iter().collect()
}

/// Relies on `RoaringBitmap::serialized_size`, a function of the bitmap
/// value (its container layout included).
#[verifier::external_body]
fn rb_ser_size(b: &RoaringBitmap) -> (r: usize)
    ensures
        r == rb_serialized_size_of(*b),
{
    b.serialized_size()
}

/// Relies on `RoaringBitmap::deserialize_from` reading the standard roaring
/// byte format; it validates the input and fails on malformed bytes.
#[verifier::external_body]
fn rb_deserialize(bytes: &[u8]) -> (r: Option<RoaringBitmap>)
    ensures
        match r {
            Some(b) => {
                &&& rb_parse_ok(bytes@)
                &&& rb_set(b) == rb_parse(bytes@)
                &&& rb_set(b).finite()
            },
            None => !rb_parse_ok(bytes@),
        },
{
    RoaringBitmap::deserialize_from(bytes).ok()
}

/// Whether the bytes parse as a bitmap holding `value`; how the predicate
/// evaluator reads a serialized integer set.
pub open spec fn rb_bytes_contain(bytes: Seq<u8>, value: u32) -> bool {
    rb_parse_ok(bytes) && rb_parse(bytes).contains(value)
}

/// Parse a serialized bitmap and test it for `value`; `false` on malformed
/// bytes.
pub fn bitmap_bytes_contain(bytes: &[u8], value: u32) -> (r: bool)
    ensures
        r == rb_bytes_contain(bytes@, value),
{
    match rb_deserialize(bytes) {
        Some(b) => rb_contains(&b, value),
        None => false,
    }
}

/// An immutable set of unsigned 32-bit integers.
#[derive(Debug)]
pub struct Bitmap {
    inner: RoaringBitmap,
}

/// The union of a sequence of bitmap views, left to right.
pub open spec fn union_of(s: Seq<Bitmap>) -> Set<u32>
    decreases s.len(),
{
    if s.len() == 0 {
        Set::empty()
    } else {
        union_of(s.drop_last()).union(s.last()@)
    }
}

/// The intersection of a non-empty sequence of bitmap views; the empty
/// sequence gives the empty set, not the universe.
pub open spec fn intersection_of(s: Seq<Bitmap>) -> Set<u32>
    decreases s.len(),
{
    if s.len() == 0 {
        Set::empty()
    } else if s.len() == 1 {
        s[0]@
    } else {
        intersection_of(s.drop_last()).intersect(s.last()@)
    }
}

impl View for Bitmap {
    type V = Set<u32>;

    closed spec fn view(&self) -> Set<u32> {
        rb_set(self.inner)
    }
}

impl Bitmap {
    /// The view is a finite set; every constructor establishes it.
    pub closed spec fn wf(self) -> bool {
        rb_set(self.inner).finite()
    }

    /// A well-formed bitmap's view is a finite set, so cardinality laws
    /// such as [`lemma_cardinality_union`] apply to it directly.
    pub proof fn lemma_view_finite(self)
        requires
            self.wf(),
        ensures
            self@.finite(),
    {
    }

    /// The empty set.
    pub fn new() -> (r: Self)
        ensures
            r.wf(),
            r@ == Set::<u32>::empty(),
    {
        Bitmap { inner: rb_new() }
    }

    /// The set of the given integers.
    pub fn from_list(values: &Vec<u32>) -> (r: Self)
        ensures
            r.wf(),
            r@ == values@.to_set(),
    {
        let mut inner = rb_new();
        let mut i: usize = 0;
        while i < values.len()
            invariant
                i <= values@.len(),
                rb_set(inner).finite(),
                rb_set(inner) == values@.subrange(0, i as int).to_set(),
            decreases values@.len() - i,
        {
            rb_insert(&mut inner, values[i]);
            proof {
                Seq::<u32>::lemma_to_set_insert_commutes(
                    values@.subrange(0, i as int),
                    values@[i as int],
                );
                assert(values@.subrange(0, i + 1)
                    =~= values@.subrange(0, i as int) + seq![values@[i as int]]);
            }
            i = i + 1;
        }
        proof {
            assert(values@.subrange(0, values@.len() as int) =~= values@);
        }
        Bitmap { inner }
    }

    /// This set with `value` added.
    pub fn add(&self, value: u32) -> (r: Self)
        requires
            self.wf(),
        ensures
            r.wf(),
            r@ == self@.insert(value),
    {
        let mut inner = rb_clone(&self.inner);
        rb_insert(&mut inner, value);
        Bitmap { inner }
    }

    /// This set with `value` taken out.
    pub fn remove(&self, value: u32) -> (r: Self)
        requires
            self.wf(),
        ensures
            r.wf(),
            r@ == self@.remove(value),
    {
        let mut inner = rb_clone(&self.inner);
        rb_remove(&mut inner, value);
        Bitmap { inner }
    }

    /// The empty set; what clearing a handle yields.
    pub fn clear(&self) -> (r: Self)
        ensures
            r.wf(),
            r@ == Set::<u32>::empty(),
    {
        Bitmap { inner: rb_new() }
    }

    /// Whether `value` is in the set.
    pub fn contains(&self, value: u32) -> (r: bool)
        ensures
            r == self@.contains(value),
    {
        rb_contains(&self.inner, value)
    }

    /// How many integers the set holds.
    pub fn cardinality(&self) -> (r: u64)
        requires
            self.wf(),
        ensures
            r == self@.len(),
    {
        rb_len(&self.inner)
    }

    /// Whether the set holds nothing.
    pub fn is_empty(&self) -> (r: bool)
        ensures
            r == (self@ == Set::<u32>::empty()),
    {
        rb_is_empty(&self.inner)
    }

    /// The smallest member, if any.
    pub fn min(&self) -> (r: Option<u32>)
        ensures
            match r {
                Some(m) => self@.contains(m)
                    && forall|e: u32| #[trigger] self@.contains(e) ==> m <= e,
                None => self@ == Set::<u32>::empty(),
            },
    {
        rb_min(&self.inner)
    }

    /// The largest member, if any.
    pub fn max(&self) -> (r: Option<u32>)
        ensures
            match r {
                Some(m) => self@.contains(m)
                    && forall|e: u32| #[trigger] self@.contains(e) ==> e <= m,
                None => self@ == Set::<u32>::empty(),
            },
    {
        rb_max(&self.inner)
    }

    /// The union of two sets; neither input changes.
    pub fn union(a: &Bitmap, b: &Bitmap) -> (r: Bitmap)
        ensures
            r.wf(),
            r@ == a@.union(b@),
    {
        Bitmap { inner: rb_or(&a.inner, &b.inner) }
    }

    /// The intersection of two sets; neither input changes.
    pub fn intersection(a: &Bitmap, b: &Bitmap) -> (r: Bitmap)
        ensures
            r.wf(),
            r@ == a@.intersect(b@),
    {
        Bitmap { inner: rb_and(&a.inner, &b.inner) }
    }

    /// The integers in `a` but not in `b`; neither input changes.
    pub fn difference(a: &Bitmap, b: &Bitmap) -> (r: Bitmap)
        ensures
            r.wf(),
            r@ == a@.difference(b@),
    {
        Bitmap { inner: rb_sub(&a.inner, &b.inner) }
    }

    /// The union of all the given sets; empty input gives the empty set.
    pub fn union_many(xs: &Vec<Bitmap>) -> (r: Bitmap)
        ensures
            r.wf(),
            r@ == union_of(xs@),
    {
        let mut inner = rb_new();
        let mut i: usize = 0;
        while i < xs.len()
            invariant
                i <= xs@.len(),
                rb_set(inner).finite(),
                rb_set(inner) == union_of(xs@.subrange(0, i as int)),
            decreases xs@.len() - i,
        {
            let next = rb_or(&inner, &xs[i].inner);
            inner = next;
            proof {
                assert(xs@.subrange(0, i + 1).drop_last() =~= xs@.subrange(0, i as int));
                assert(xs@.subrange(0, i + 1).last() == xs@[i as int]);
            }
            i = i + 1;
        }
        proof {
            assert(xs@.subrange(0, xs@.len() as int) =~= xs@);
        }
        Bitmap { inner }
    }

    /// The intersection of all the given sets; empty input gives the empty
    /// set, not the universe.
    pub fn intersection_many(xs: &Vec<Bitmap>) -> (r: Bitmap)
        requires
            forall|i: int| 0 <= i < xs@.len() ==> (#[trigger] xs@[i]).wf(),
        ensures
            r.wf(),
            r@ == intersection_of(xs@),
    {
        if xs.len() == 0 {
            return Bitmap { inner: rb_new() };
        }
        let mut inner = rb_clone(&xs[0].inner);
        proof {
            assert(xs@.subrange(0, 1).len() == 1);
            assert(xs@.subrange(0, 1)[0] == xs@[0]);
        }
        let mut i: usize = 1;
        while i < xs.len()
            invariant
                1 <= i <= xs@.len(),
                rb_set(inner).finite(),
                rb_set(inner) == intersection_of(xs@.subrange(0, i as int)),
            decreases xs@.len() - i,
        {
            let next = rb_and(&inner, &xs[i].inner);
            inner = next;
            proof {
                assert(xs@.subrange(0, i + 1).drop_last() =~= xs@.subrange(0, i as int));
                assert(xs@.subrange(0, i + 1).last() == xs@[i as int]);
            }
            i = i + 1;
        }
        proof {
            assert(xs@.subrange(0, xs@.len() as int) =~= xs@);
        }
        Bitmap { inner }
    }

    /// Whether two sets hold the same integers.
    pub fn equal(a: &Bitmap, b: &Bitmap) -> (r: bool)
        ensures
            r == (a@ == b@),
    {
        rb_eq(&a.inner, &b.inner)
    }

    /// Whether every integer of `a` is in `b`.
    pub fn is_subset(a: &Bitmap, b: &Bitmap) -> (r: bool)
        ensures
            r == a@.subset_of(b@),
    {
        rb_is_subset(&a.inner, &b.inner)
    }

    /// Whether any of the given sets holds `value`.
    pub fn any_contains(xs: &Vec<Bitmap>, value: u32) -> (r: bool)
        ensures
            r == exists|i: int| 0 <= i < xs@.len() && (#[trigger] xs@[i])@.contains(value),
    {
        let mut i: usize = 0;
        while i < xs.len()
            invariant
                i <= xs@.len(),
                forall|k: int| 0 <= k < i ==> !(#[trigger] xs@[k])@.contains(value),
            decreases xs@.len() - i,
        {
            if xs[i].contains(value) {
                return true;
            }
            i = i + 1;
        }
        false
    }

    /// This set with all the given integers added.
    pub fn add_many(&self, values: &Vec<u32>) -> (r: Bitmap)
        requires
            self.wf(),
        ensures
            r.wf(),
            r@ == self@.union(values@.to_set()),
    {
        let mut inner = rb_clone(&self.inner);
        let mut i: usize = 0;
        while i < values.len()
            invariant
                i <= values@.len(),
                rb_set(inner).finite(),
                rb_set(inner) == self@.union(values@.subrange(0, i as int).to_set()),
            decreases values@.len() - i,
        {
            rb_insert(&mut inner, values[i]);
            proof {
                Seq::<u32>::lemma_to_set_insert_commutes(
                    values@.subrange(0, i as int),
                    values@[i as int],
                );
                assert(values@.subrange(0, i + 1)
                    =~= values@.subrange(0, i as int) + seq![values@[i as int]]);
                assert(self@.union(values@.subrange(0, i + 1).to_set())
                    =~= self@.union(values@.subrange(0, i as int).to_set()).insert(
                        values@[i as int],
                    ));
            }
            i = i + 1;
        }
        proof {
            assert(values@.subrange(0, values@.len() as int) =~= values@);
        }
        Bitmap { inner }
    }

    /// The held integers, ascending.
    pub fn to_list(&self) -> (r: Vec<u32>)
        ensures
            sorted_strict(r@),
            r@.to_set() == self@,
    {
        rb_to_vec(&self.inner)
    }

    /// The size of this bitmap's serialized form, in bytes. Depends on the
    /// container layout, so two bitmaps holding the same set may answer
    /// differently.
    pub fn size_in_bytes(&self) -> (r: usize)
        ensures
            r == self.spec_serialized_size(),
    {
        rb_ser_size(&self.inner)
    }

    /// The size of this bitmap's serialized form.
    pub closed spec fn spec_serialized_size(self) -> usize {
        rb_serialized_size_of(self.inner)
    }
}

/// Union of integer sets is commutative.
pub proof fn lemma_union_commutative(a: Set<u32>, b: Set<u32>)
    ensures
        a.union(b) == b.union(a),
{
    assert(a.union(b) =~= b.union(a));
}

/// Union of integer sets is associative.
pub proof fn lemma_union_associative(a: Set<u32>, b: Set<u32>, c: Set<u32>)
    ensures
        a.union(b).union(c) == a.union(b.union(c)),
{
    assert(a.union(b).union(c) =~= a.union(b.union(c)));
}

/// A set intersected with itself is itself.
pub proof fn lemma_intersection_self(a: Set<u32>)
    ensures
        a.intersect(a) == a,
{
    assert(a.intersect(a) =~= a);
}

/// A set less itself is empty.
pub proof fn lemma_difference_self(a: Set<u32>)
    ensures
        a.difference(a) == Set::<u32>::empty(),
{
    assert(a.difference(a) =~= Set::<u32>::empty());
}

/// Inclusion–exclusion: the union's cardinality is the two cardinalities
/// less the intersection's.
pub proof fn lemma_cardinality_union(a: Set<u32>, b: Set<u32>)
    requires
        a.finite(),
        b.finite(),
    ensures
        a.union(b).len() + a.intersect(b).len() == a.len() + b.len(),
    decreases a.len(),
{
    if a.len() == 0 {
        assert(a =~= Set::<u32>::empty());
        assert(a.union(b) =~= b);
        assert(a.intersect(b) =~= Set::<u32>::empty());
    } else {
        let x = a.choose();
        assert(a.contains(x));
        let a2 = a.remove(x);
        lemma_cardinality_union(a2, b);
        if b.contains(x) {
            assert(a.union(b) =~= a2.union(b));
            assert(a.intersect(b) =~= a2.intersect(b).insert(x));
            assert(!a2.intersect(b).contains(x));
            vstd::set_lib::lemma_set_union_finite_iff(a2, b);
        } else {
            assert(!a2.union(b).contains(x));
            assert(a.union(b) =~= a2.union(b).insert(x));
            assert(a.intersect(b) =~= a2.intersect(b));
            vstd::set_lib::lemma_set_union_finite_iff(a2, b);
        }
    }
}

} // verus!
