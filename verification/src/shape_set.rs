//! Shape-sets: sorted, duplicate-free vectors of 32-bit shape ids.
//!
//! Every collection of shape ids this crate hands out is kept strictly
//! ascending, so a shape-set is determined by its members and results are
//! reproducible.

use vstd::prelude::*;

verus! {

/// Strictly ascending: each id appears once, in order.
pub open spec fn sorted_strict(s: Seq<u32>) -> bool {
    forall|i: int, j: int| 0 <= i < j < s.len() ==> s[i] < s[j]
}

/// Two sorted duplicate-free vectors with the same members are the same
/// vector.
pub proof fn lemma_sorted_strict_unique(s1: Seq<u32>, s2: Seq<u32>)
    requires
        sorted_strict(s1),
        sorted_strict(s2),
        s1.to_set() == s2.to_set(),
    ensures
        s1 == s2,
    decreases s1.len(),
{
    if s1.len() == 0 {
        if s2.len() > 0 {
            assert(s2.to_set().contains(s2[0]));
            assert(s1.to_set().contains(s2[0]));
        }
        assert(s1 =~= s2);
    } else if s2.len() == 0 {
        assert(s1.to_set().contains(s1[0]));
        assert(s2.to_set().contains(s1[0]));
    } else {
        assert(s1.to_set().contains(s1[0]));
        assert(s2.to_set().contains(s2[0]));
        assert(s2.to_set().contains(s1[0]));
        assert(s1.to_set().contains(s2[0]));
        let i1 = choose|i: int| 0 <= i < s1.len() && s1[i] == s2[0];
        let i2 = choose|i: int| 0 <= i < s2.len() && s2[i] == s1[0];
        assert(s1[0] <= s1[i1] && s2[0] <= s2[i2]);
        assert(s1[0] == s2[0]);
        let t1 = s1.subrange(1, s1.len() as int);
        let t2 = s2.subrange(1, s2.len() as int);
        assert(t1.to_set() =~= s1.to_set().remove(s1[0])) by {
            assert forall|e: u32| t1.to_set().contains(e) implies s1.to_set().remove(s1[0]).contains(e) by {
                let k = choose|k: int| 0 <= k < t1.len() && t1[k] == e;
                assert(s1[k + 1] == e);
                assert(s1[0] < s1[k + 1]);
            }
            assert forall|e: u32| s1.to_set().remove(s1[0]).contains(e) implies t1.to_set().contains(e) by {
                let k = choose|k: int| 0 <= k < s1.len() && s1[k] == e;
                assert(k != 0);
                assert(t1[k - 1] == e);
            }
        }
        assert(t2.to_set() =~= s2.to_set().remove(s2[0])) by {
            assert forall|e: u32| t2.to_set().contains(e) implies s2.to_set().remove(s2[0]).contains(e) by {
                let k = choose|k: int| 0 <= k < t2.len() && t2[k] == e;
                assert(s2[k + 1] == e);
                assert(s2[0] < s2[k + 1]);
            }
            assert forall|e: u32| s2.to_set().remove(s2[0]).contains(e) implies t2.to_set().contains(e) by {
                let k = choose|k: int| 0 <= k < s2.len() && s2[k] == e;
                assert(k != 0);
                assert(t2[k - 1] == e);
            }
        }
        lemma_sorted_strict_unique(t1, t2);
        assert(s1.len() == s2.len()) by {
            assert(t1.len() == t2.len());
        }
        assert forall|k: int| 0 <= k < s1.len() implies s1[k] == s2[k] by {
            if k > 0 {
                assert(s1[k] == t1[k - 1]);
                assert(s2[k] == t2[k - 1]);
            }
        }
        assert(s1 =~= s2);
    }
}

/// Membership test by linear scan.
pub fn contains_shape(v: &Vec<u32>, x: u32) -> (r: bool)
    ensures
        r == v@.to_set().contains(x),
{
    let mut i: usize = 0;
    while i < v.len()
        invariant
            i <= v.len(),
            forall|k: int| 0 <= k < i ==> v@[k] != x,
        decreases v.len() - i,
    {
        if v[i] == x {
            assert(v@.to_set().contains(x));
            return true;
        }
        i = i + 1;
    }
    assert(!v@.contains(x));
    false
}

/// Add an id, keeping the vector sorted and duplicate-free.
pub fn insert_shape(v: &mut Vec<u32>, x: u32)
    requires
        sorted_strict(old(v)@),
    ensures
        sorted_strict(final(v)@),
        final(v)@.to_set() == old(v)@.to_set().insert(x),
        final(v)@.len() <= old(v)@.len() + 1,
{
    let ghost v0 = v@;
    let mut i: usize = 0;
    while i < v.len()
        invariant
            i <= v.len(),
            v@ == v0,
            v0 == old(v)@,
            sorted_strict(v0),
            forall|k: int| 0 <= k < i ==> v0[k] < x,
        decreases v.len() - i,
    {
        if v[i] == x {
            assert(v0.to_set().contains(x));
            assert(v0.to_set() =~= v0.to_set().insert(x));
            return;
        }
        if v[i] > x {
            v.insert(i, x);
            proof {
                v0.insert_ensures(i as int, x);
                assert(sorted_strict(v@)) by {
                    assert forall|p: int, q: int| 0 <= p < q < v@.len() implies v@[p] < v@[q] by {
                        if q < i {
                        } else if p > i {
                            assert(v@[p] == v0[p - 1] && v@[q] == v0[q - 1]);
                        } else if p < i && q == i {
                            assert(v@[p] == v0[p] && v@[q] == x);
                        } else if p == i {
                            assert(v@[p] == x && v@[q] == v0[q - 1]);
                            assert(v0[i as int] <= v0[q - 1]);
                        } else {
                            assert(v@[p] == v0[p] && v@[q] == v0[q - 1]);
                            assert(v0[p] < x && x < v0[q - 1] + 1);
                            assert(v0[p] < v0[i as int] || p == i);
                        }
                    }
                }
                assert(v@.to_set() =~= v0.to_set().insert(x)) by {
                    assert forall|e: u32| v@.to_set().contains(e)
                        implies v0.to_set().insert(x).contains(e) by {
                        let k = choose|k: int| 0 <= k < v@.len() && v@[k] == e;
                        if k < i {
                            assert(v0[k] == e);
                        } else if k > i {
                            assert(v0[k - 1] == e);
                        }
                    }
                    assert forall|e: u32| v0.to_set().insert(x).contains(e)
                        implies v@.to_set().contains(e) by {
                        if e == x {
                            assert(v@[i as int] == e);
                        } else {
                            let k = choose|k: int| 0 <= k < v0.len() && v0[k] == e;
                            if k < i {
                                assert(v@[k] == e);
                            } else {
                                assert(v@[k + 1] == e);
                            }
                        }
                    }
                }
            }
            return;
        }
        i = i + 1;
    }
    v.push(x);
    proof {
        assert(forall|k: int| 0 <= k < v0.len() ==> v0[k] < x);
        assert(sorted_strict(v@));
        assert(v@.to_set() =~= v0.to_set().insert(x)) by {
            assert forall|e: u32| v@.to_set().contains(e)
                implies v0.to_set().insert(x).contains(e) by {
                let k = choose|k: int| 0 <= k < v@.len() && v@[k] == e;
                if k < v0.len() {
                    assert(v0[k] == e);
                }
            }
            assert forall|e: u32| v0.to_set().insert(x).contains(e)
                implies v@.to_set().contains(e) by {
                if e == x {
                    assert(v@[v0.len() as int] == e);
                } else {
                    let k = choose|k: int| 0 <= k < v0.len() && v0[k] == e;
                    assert(v@[k] == e);
                }
            }
        }
    }
}

/// Take an id out, keeping the vector sorted; absent ids leave it unchanged.
pub fn remove_shape(v: &mut Vec<u32>, x: u32)
    requires
        sorted_strict(old(v)@),
    ensures
        sorted_strict(final(v)@),
        final(v)@.to_set() == old(v)@.to_set().remove(x),
{
    let ghost v0 = v@;
    let mut i: usize = 0;
    while i < v.len()
        invariant
            i <= v.len(),
            v@ == v0,
            v0 == old(v)@,
            sorted_strict(v0),
            forall|k: int| 0 <= k < i ==> v0[k] != x,
        decreases v.len() - i,
    {
        if v[i] == x {
            v.remove(i);
            proof {
                v0.remove_ensures(i as int);
                assert(sorted_strict(v@)) by {
                    assert forall|p: int, q: int| 0 <= p < q < v@.len() implies v@[p] < v@[q] by {
                        if q < i {
                        } else if p >= i {
                            assert(v@[p] == v0[p + 1] && v@[q] == v0[q + 1]);
                        } else {
                            assert(v@[p] == v0[p] && v@[q] == v0[q + 1]);
                        }
                    }
                }
                assert(v@.to_set() =~= v0.to_set().remove(x)) by {
                    assert forall|e: u32| v@.to_set().contains(e)
                        implies v0.to_set().remove(x).contains(e) by {
                        let k = choose|k: int| 0 <= k < v@.len() && v@[k] == e;
                        if k < i {
                            assert(v0[k] == e);
                            assert(v0[k] < v0[i as int]);
                        } else {
                            assert(v0[k + 1] == e);
                            assert(v0[i as int] < v0[k + 1]);
                        }
                    }
                    assert forall|e: u32| v0.to_set().remove(x).contains(e)
                        implies v@.to_set().contains(e) by {
                        let k = choose|k: int| 0 <= k < v0.len() && v0[k] == e;
                        if k < i {
                            assert(v@[k] == e);
                        } else {
                            assert(k != i);
                            assert(v@[k - 1] == e);
                        }
                    }
                }
            }
            return;
        }
        if v[i] > x {
            proof {
                assert(!v0.contains(x)) by {
                    assert forall|k: int| 0 <= k < v0.len() implies v0[k] != x by {
                        if k > i {
                            assert(v0[i as int] < v0[k]);
                        }
                    }
                }
                assert(v0.to_set() =~= v0.to_set().remove(x));
            }
            return;
        }
        i = i + 1;
    }
    proof {
        assert(!v0.contains(x));
        assert(v0.to_set() =~= v0.to_set().remove(x));
    }
}

/// Strictly ascending fingerprints: each key appears once, in order.
pub open spec fn sorted_strict_keys(s: Seq<u64>) -> bool {
    forall|i: int, j: int| 0 <= i < j < s.len() ==> s[i] < s[j]
}

/// Two sorted duplicate-free key vectors with the same members are the
/// same vector.
pub proof fn lemma_sorted_keys_unique(s1: Seq<u64>, s2: Seq<u64>)
    requires
        sorted_strict_keys(s1),
        sorted_strict_keys(s2),
        s1.to_set() == s2.to_set(),
    ensures
        s1 == s2,
    decreases s1.len(),
{
    if s1.len() == 0 {
        if s2.len() > 0 {
            assert(s2.to_set().contains(s2[0]));
            assert(s1.to_set().contains(s2[0]));
        }
        assert(s1 =~= s2);
    } else if s2.len() == 0 {
        assert(s1.to_set().contains(s1[0]));
        assert(s2.to_set().contains(s1[0]));
    } else {
        assert(s1.to_set().contains(s1[0]));
        assert(s2.to_set().contains(s2[0]));
        assert(s2.to_set().contains(s1[0]));
        assert(s1.to_set().contains(s2[0]));
        let i1 = choose|i: int| 0 <= i < s1.len() && s1[i] == s2[0];
        let i2 = choose|i: int| 0 <= i < s2.len() && s2[i] == s1[0];
        assert(s1[0] <= s1[i1] && s2[0] <= s2[i2]);
        assert(s1[0] == s2[0]);
        let t1 = s1.subrange(1, s1.len() as int);
        let t2 = s2.subrange(1, s2.len() as int);
        assert(t1.to_set() =~= s1.to_set().remove(s1[0])) by {
            assert forall|e: u64| t1.to_set().contains(e)
                implies s1.to_set().remove(s1[0]).contains(e) by {
                let k = choose|k: int| 0 <= k < t1.len() && t1[k] == e;
                assert(s1[k + 1] == e);
                assert(s1[0] < s1[k + 1]);
            }
            assert forall|e: u64| s1.to_set().remove(s1[0]).contains(e)
                implies t1.to_set().contains(e) by {
                let k = choose|k: int| 0 <= k < s1.len() && s1[k] == e;
                assert(k != 0);
                assert(t1[k - 1] == e);
            }
        }
        assert(t2.to_set() =~= s2.to_set().remove(s2[0])) by {
            assert forall|e: u64| t2.to_set().contains(e)
                implies s2.to_set().remove(s2[0]).contains(e) by {
                let k = choose|k: int| 0 <= k < t2.len() && t2[k] == e;
                assert(s2[k + 1] == e);
                assert(s2[0] < s2[k + 1]);
            }
            assert forall|e: u64| s2.to_set().remove(s2[0]).contains(e)
                implies t2.to_set().contains(e) by {
                let k = choose|k: int| 0 <= k < s2.len() && s2[k] == e;
                assert(k != 0);
                assert(t2[k - 1] == e);
            }
        }
        lemma_sorted_keys_unique(t1, t2);
        assert(s1.len() == s2.len()) by {
            assert(t1.len() == t2.len());
        }
        assert forall|k: int| 0 <= k < s1.len() implies s1[k] == s2[k] by {
            if k > 0 {
                assert(s1[k] == t1[k - 1]);
                assert(s2[k] == t2[k - 1]);
            }
        }
        assert(s1 =~= s2);
    }
}

/// A strictly ascending key vector holds pairwise-distinct keys.
pub proof fn lemma_sorted_keys_distinct(s: Seq<u64>)
    requires
        sorted_strict_keys(s),
    ensures
        forall|i: int, j: int| 0 <= i < j < s.len() ==> s[i] != s[j],
{
}

/// Add a fingerprint, keeping the vector sorted and duplicate-free.
pub fn insert_key(v: &mut Vec<u64>, x: u64)
    requires
        sorted_strict_keys(old(v)@),
    ensures
        sorted_strict_keys(final(v)@),
        final(v)@.to_set() == old(v)@.to_set().insert(x),
{
    let ghost v0 = v@;
    let mut i: usize = 0;
    while i < v.len()
        invariant
            i <= v.len(),
            v@ == v0,
            v0 == old(v)@,
            sorted_strict_keys(v0),
            forall|k: int| 0 <= k < i ==> v0[k] < x,
        decreases v.len() - i,
    {
        if v[i] == x {
            assert(v0.to_set().contains(x));
            assert(v0.to_set() =~= v0.to_set().insert(x));
            return;
        }
        if v[i] > x {
            v.insert(i, x);
            proof {
                v0.insert_ensures(i as int, x);
                assert(sorted_strict_keys(v@)) by {
                    assert forall|p: int, q: int| 0 <= p < q < v@.len() implies v@[p] < v@[q] by {
                        if q < i {
                        } else if p > i {
                            assert(v@[p] == v0[p - 1] && v@[q] == v0[q - 1]);
                        } else if p < i && q == i {
                            assert(v@[p] == v0[p] && v@[q] == x);
                        } else if p == i {
                            assert(v@[p] == x && v@[q] == v0[q - 1]);
                            assert(v0[i as int] <= v0[q - 1]);
                        } else {
                            assert(v@[p] == v0[p] && v@[q] == v0[q - 1]);
                            assert(v0[p] < x && x < v0[q - 1] + 1);
                            assert(v0[p] < v0[i as int] || p == i);
                        }
                    }
                }
                assert(v@.to_set() =~= v0.to_set().insert(x)) by {
                    assert forall|e: u64| v@.to_set().contains(e)
                        implies v0.to_set().insert(x).contains(e) by {
                        let k = choose|k: int| 0 <= k < v@.len() && v@[k] == e;
                        if k < i {
                            assert(v0[k] == e);
                        } else if k > i {
                            assert(v0[k - 1] == e);
                        }
                    }
                    assert forall|e: u64| v0.to_set().insert(x).contains(e)
                        implies v@.to_set().contains(e) by {
                        if e == x {
                            assert(v@[i as int] == e);
                        } else {
                            let k = choose|k: int| 0 <= k < v0.len() && v0[k] == e;
                            if k < i {
                                assert(v@[k] == e);
                            } else {
                                assert(v@[k + 1] == e);
                            }
                        }
                    }
                }
            }
            return;
        }
        i = i + 1;
    }
    v.push(x);
    proof {
        assert(forall|k: int| 0 <= k < v0.len() ==> v0[k] < x);
        assert(sorted_strict_keys(v@));
        assert(v@.to_set() =~= v0.to_set().insert(x)) by {
            assert forall|e: u64| v@.to_set().contains(e)
                implies v0.to_set().insert(x).contains(e) by {
                let k = choose|k: int| 0 <= k < v@.len() && v@[k] == e;
                if k < v0.len() {
                    assert(v0[k] == e);
                }
            }
            assert forall|e: u64| v0.to_set().insert(x).contains(e)
                implies v@.to_set().contains(e) by {
                if e == x {
                    assert(v@[v0.len() as int] == e);
                } else {
                    let k = choose|k: int| 0 <= k < v0.len() && v0[k] == e;
                    assert(v@[k] == e);
                }
            }
        }
    }
}

/// Add every id of `src` to `dst`, keeping `dst` sorted and duplicate-free.
pub fn union_shapes(dst: &mut Vec<u32>, src: &Vec<u32>)
    requires
        sorted_strict(old(dst)@),
    ensures
        sorted_strict(final(dst)@),
        final(dst)@.to_set() == old(dst)@.to_set().union(src@.to_set()),
{
    let ghost d0 = dst@;
    let mut i: usize = 0;
    while i < src.len()
        invariant
            i <= src.len(),
            sorted_strict(dst@),
            d0 == old(dst)@,
            dst@.to_set() == d0.to_set().union(src@.subrange(0, i as int).to_set()),
        decreases src.len() - i,
    {
        let ghost pre = dst@;
        insert_shape(dst, src[i]);
        proof {
            assert(src@.subrange(0, i + 1).drop_last() =~= src@.subrange(0, i as int));
            assert(src@.subrange(0, i + 1).last() == src@[i as int]);
            assert(src@.subrange(0, i + 1).to_set()
                =~= src@.subrange(0, i as int).to_set().insert(src@[i as int])) by {
                let s = src@.subrange(0, i + 1);
                assert forall|e: u32| s.to_set().contains(e)
                    implies src@.subrange(0, i as int).to_set().insert(src@[i as int]).contains(e) by {
                    let k = choose|k: int| 0 <= k < s.len() && s[k] == e;
                    if k < i {
                        assert(src@.subrange(0, i as int)[k] == e);
                    }
                }
                assert forall|e: u32| src@.subrange(0, i as int).to_set().insert(src@[i as int]).contains(e)
                    implies s.to_set().contains(e) by {
                    if e == src@[i as int] {
                        assert(s[i as int] == e);
                    } else {
                        let k = choose|k: int| 0 <= k < i && src@.subrange(0, i as int)[k] == e;
                        assert(s[k] == e);
                    }
                }
            }
            assert(dst@.to_set() =~= d0.to_set().union(src@.subrange(0, i + 1).to_set()));
        }
        i = i + 1;
    }
    proof {
        assert(src@.subrange(0, src@.len() as int) =~= src@);
    }
}

} // verus!
