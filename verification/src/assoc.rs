//! Association vectors: fingerprint/value pairs with pairwise-distinct keys,
//! read in contracts as the map they stand for.

use vstd::prelude::*;

verus! {

/// No fingerprint occurs twice.
pub open spec fn distinct_keys<V>(s: Seq<(u64, V)>) -> bool {
    forall|i: int, j: int| 0 <= i < j < s.len() ==> s[i].0 != s[j].0
}

/// The map an association vector stands for; later entries win.
pub open spec fn assoc_map<V>(s: Seq<(u64, V)>) -> Map<u64, V>
    decreases s.len(),
{
    if s.len() == 0 {
        Map::empty()
    } else {
        assoc_map(s.drop_last()).insert(s.last().0, s.last().1)
    }
}

/// Each entry of a distinct-keyed vector is found in its map.
pub proof fn lemma_assoc_index<V>(s: Seq<(u64, V)>, i: int)
    requires
        distinct_keys(s),
        0 <= i < s.len(),
    ensures
        assoc_map(s).dom().contains(s[i].0),
        assoc_map(s)[s[i].0] == s[i].1,
    decreases s.len(),
{
    if i < s.len() - 1 {
        assert(distinct_keys(s.drop_last()));
        lemma_assoc_index(s.drop_last(), i);
        assert(s.drop_last()[i] == s[i]);
        assert(s.last().0 != s[i].0);
    }
}

/// A fingerprint on no entry is not in the map.
pub proof fn lemma_assoc_absent<V>(s: Seq<(u64, V)>, k: u64)
    requires
        forall|i: int| 0 <= i < s.len() ==> s[i].0 != k,
    ensures
        !assoc_map(s).dom().contains(k),
    decreases s.len(),
{
    if s.len() > 0 {
        assert(forall|i: int| 0 <= i < s.drop_last().len() ==> s.drop_last()[i].0 != k);
        lemma_assoc_absent(s.drop_last(), k);
    }
}

/// A key in the map names some entry.
pub proof fn lemma_assoc_member<V>(s: Seq<(u64, V)>, k: u64)
    requires
        assoc_map(s).dom().contains(k),
    ensures
        exists|i: int| 0 <= i < s.len() && s[i].0 == k,
    decreases s.len(),
{
    if s.len() > 0 {
        if s.last().0 == k {
            assert(s[s.len() - 1].0 == k);
        } else {
            lemma_assoc_member(s.drop_last(), k);
            let i = choose|i: int| 0 <= i < s.drop_last().len() && s.drop_last()[i].0 == k;
            assert(s[i].0 == k);
        }
    }
}

/// The map of a distinct-keyed vector has as many keys as the vector has
/// entries, and is finite.
pub proof fn lemma_assoc_dom_len<V>(s: Seq<(u64, V)>)
    requires
        distinct_keys(s),
    ensures
        assoc_map(s).dom().finite(),
        assoc_map(s).dom().len() == s.len(),
    decreases s.len(),
{
    if s.len() > 0 {
        assert(distinct_keys(s.drop_last()));
        lemma_assoc_dom_len(s.drop_last());
        assert(forall|i: int| 0 <= i < s.drop_last().len() ==> s.drop_last()[i].0 != s.last().0);
        lemma_assoc_absent(s.drop_last(), s.last().0);
    }
}

/// Replacing the value at one entry replaces just that key in the map.
pub proof fn lemma_assoc_update<V>(s: Seq<(u64, V)>, i: int, v: V)
    requires
        distinct_keys(s),
        0 <= i < s.len(),
    ensures
        distinct_keys(s.update(i, (s[i].0, v))),
        assoc_map(s.update(i, (s[i].0, v))) == assoc_map(s).insert(s[i].0, v),
    decreases s.len(),
{
    let s2 = s.update(i, (s[i].0, v));
    assert(distinct_keys(s2));
    if i == s.len() - 1 {
        assert(s2.drop_last() =~= s.drop_last());
        assert(assoc_map(s2) =~= assoc_map(s).insert(s[i].0, v));
    } else {
        assert(distinct_keys(s.drop_last()));
        assert(s.drop_last()[i] == s[i]);
        lemma_assoc_update(s.drop_last(), i, v);
        assert(s2.drop_last() =~= s.drop_last().update(i, (s[i].0, v)));
        assert(s2.last() == s.last());
        assert(s.last().0 != s[i].0);
        assert(assoc_map(s2) =~= assoc_map(s).insert(s[i].0, v));
    }
}

/// Appending a fresh entry adds just that key to the map.
pub proof fn lemma_assoc_push<V>(s: Seq<(u64, V)>, k: u64, v: V)
    requires
        distinct_keys(s),
        forall|i: int| 0 <= i < s.len() ==> s[i].0 != k,
    ensures
        distinct_keys(s.push((k, v))),
        assoc_map(s.push((k, v))) == assoc_map(s).insert(k, v),
{
    assert(s.push((k, v)).drop_last() =~= s);
    assert(distinct_keys(s.push((k, v)))) by {
        assert forall|i: int, j: int| 0 <= i < j < s.push((k, v)).len()
            implies s.push((k, v))[i].0 != s.push((k, v))[j].0 by {
            if j < s.len() {
                assert(s[i].0 != s[j].0);
            } else {
                assert(s[i].0 != k);
            }
        }
    }
}

/// Concatenated association vectors stand for the overriding union of their
/// maps: the right-hand entries win.
pub proof fn lemma_assoc_concat<V>(a: Seq<(u64, V)>, b: Seq<(u64, V)>)
    ensures
        assoc_map(a + b) == assoc_map(a).union_prefer_right(assoc_map(b)),
    decreases b.len(),
{
    if b.len() == 0 {
        assert(a + b =~= a);
        assert(assoc_map(a).union_prefer_right(assoc_map(b)) =~= assoc_map(a));
    } else {
        lemma_assoc_concat(a, b.drop_last());
        assert((a + b).drop_last() =~= a + b.drop_last());
        assert((a + b).last() == b.last());
        assert(assoc_map(a).union_prefer_right(assoc_map(b))
            =~= assoc_map(a).union_prefer_right(assoc_map(b.drop_last()))
                .insert(b.last().0, b.last().1));
    }
}

/// Find the entry with fingerprint `key`, if any.
pub fn assoc_find<V>(entries: &Vec<(u64, V)>, key: u64) -> (r: Option<usize>)
    ensures
        match r {
            Some(i) => 0 <= i < entries@.len() && entries@[i as int].0 == key,
            None => forall|j: int| 0 <= j < entries@.len() ==> entries@[j].0 != key,
        },
{
    let mut i: usize = 0;
    while i < entries.len()
        invariant
            i <= entries.len(),
            forall|j: int| 0 <= j < i ==> entries@[j].0 != key,
        decreases entries.len() - i,
    {
        if entries[i].0 == key {
            return Some(i);
        }
        i = i + 1;
    }
    None
}

} // verus!
