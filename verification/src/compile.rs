//! A minimal WHERE-clause compiler: equality and IN-list clauses over named
//! columns, compiled to predicate bytecode. A fuller front end is expected
//! to live outside; this grammar covers the forms the tests and hosts use.

use vstd::prelude::*;
use crate::predicate::{Instruction, Constant, CompiledPredicate, AbstractConstant, consts_view};
use vstd::string::{StringExecFns, StringSliceAdditionalSpecFns};

verus! {

/// ASCII whitespace, as the clause grammar skips it.
pub open spec fn is_ws(b: u8) -> bool {
    b == 32 || b == 9 || b == 10 || b == 13
}

/// A byte string with its surrounding whitespace stripped.
pub open spec fn spec_trim(s: Seq<u8>) -> Seq<u8>
    decreases s.len(),
{
    if s.len() == 0 {
        s
    } else if is_ws(s[0]) {
        spec_trim(s.drop_first())
    } else if is_ws(s[s.len() - 1]) {
        spec_trim(s.drop_last())
    } else {
        s
    }
}

/// The value of a run of decimal digits.
pub open spec fn digits_val(s: Seq<u8>) -> int
    decreases s.len(),
{
    if s.len() == 0 {
        0
    } else {
        digits_val(s.drop_last()) * 10 + (s[s.len() - 1] - 48)
    }
}

/// Whether the bytes are one or more decimal digits.
pub open spec fn all_digits(s: Seq<u8>) -> bool {
    s.len() > 0 && forall|i: int| 0 <= i < s.len() ==> 48 <= #[trigger] s[i] <= 57
}

/// What a signed decimal literal denotes, if it is one and fits an `i64`.
pub open spec fn spec_parse_i64(s: Seq<u8>) -> Option<i64> {
    let neg = s.len() > 0 && s[0] == 45;
    let plus = s.len() > 0 && s[0] == 43;
    let d = if neg || plus { s.drop_first() } else { s };
    if all_digits(d) {
        if neg {
            if digits_val(d) <= 0x8000_0000_0000_0000 {
                Some((-digits_val(d)) as i64)
            } else {
                None
            }
        } else {
            if digits_val(d) <= 0x7FFF_FFFF_FFFF_FFFF {
                Some(digits_val(d) as i64)
            } else {
                None
            }
        }
    } else {
        None
    }
}

/// The first position where the needle occurs, scanning left to right.
pub open spec fn spec_find(s: Seq<u8>, needle: Seq<u8>, from: int) -> Option<int>
    decreases s.len() - from,
{
    if from < 0 || needle.len() == 0 || from + needle.len() > s.len() {
        None
    } else if s.subrange(from, from + needle.len()) == needle {
        Some(from)
    } else {
        spec_find(s, needle, from + 1)
    }
}

/// A found needle lies inside the haystack, at or after the start.
proof fn lemma_spec_find_bounds(s: Seq<u8>, needle: Seq<u8>, from: int)
    ensures
        spec_find(s, needle, from) matches Some(i)
            ==> from <= i && i + needle.len() <= s.len(),
    decreases s.len() - from,
{
    if !(from < 0 || needle.len() == 0 || from + needle.len() > s.len()) {
        if s.subrange(from, from + needle.len()) != needle {
            lemma_spec_find_bounds(s, needle, from + 1);
        }
    }
}

/// The clause bytes split at every comma, in order.
pub open spec fn split_commas(s: Seq<u8>) -> Seq<Seq<u8>>
    decreases s.len() via split_commas_decreases
{
    match spec_find(s, seq![44u8], 0) {
        Some(i) => seq![s.subrange(0, i)] + split_commas(s.subrange(i + 1, s.len() as int)),
        None => seq![s],
    }
}

#[via_fn]
proof fn split_commas_decreases(s: Seq<u8>) {
    lemma_spec_find_bounds(s, seq![44u8], 0);
}

/// The id a column name maps to, under the first matching entry.
pub open spec fn spec_col_id(map: Seq<(Vec<u8>, u16)>, name: Seq<u8>) -> Option<u16>
    decreases map.len(),
{
    if map.len() == 0 {
        None
    } else if map.first().0@ == name {
        Some(map.first().1)
    } else {
        spec_col_id(map.drop_first(), name)
    }
}

/// A byte string with all leading and trailing parentheses stripped.
pub open spec fn spec_trim_parens(s: Seq<u8>) -> Seq<u8>
    decreases s.len(),
{
    if s.len() == 0 {
        s
    } else if s[0] == 40 || s[0] == 41 {
        spec_trim_parens(s.drop_first())
    } else if s[s.len() - 1] == 40 || s[s.len() - 1] == 41 {
        spec_trim_parens(s.drop_last())
    } else {
        s
    }
}

/// Whether every comma-separated piece parses as an integer, and which.
pub open spec fn spec_in_values(pieces: Seq<Seq<u8>>) -> Option<Seq<i64>>
    decreases pieces.len(),
{
    if pieces.len() == 0 {
        Some(Seq::empty())
    } else {
        match spec_parse_i64(spec_trim(pieces.first())) {
            Some(v) => match spec_in_values(pieces.drop_first()) {
                Some(rest) => Some(seq![v] + rest),
                None => None,
            },
            None => None,
        }
    }
}

/// What a clause compiles to: an equality test, an IN test, or nothing.
pub enum CompileOutcome {
    /// `column = integer`.
    EqForm(u16, i64),
    /// `column IN (integer, ...)`.
    InForm(u16, Seq<i64>),
    /// Not a clause this compiler accepts.
    Bad,
}

/// The needle `" IN "`.
pub open spec fn in_needle() -> Seq<u8> {
    seq![32u8, 73u8, 78u8, 32u8]
}

/// What compiling a clause against a column map yields.
pub open spec fn spec_compile(clause: Seq<u8>, map: Seq<(Vec<u8>, u16)>) -> CompileOutcome {
    match spec_find(clause, in_needle(), 0) {
        Some(i) => {
            let name = spec_trim(clause.subrange(0, i));
            let rest = spec_trim(clause.subrange(i + 4, clause.len() as int));
            match spec_col_id(map, name) {
                Some(cid) => {
                    match spec_in_values(split_commas(spec_trim_parens(rest))) {
                        Some(vals) => CompileOutcome::InForm(cid, vals),
                        None => CompileOutcome::Bad,
                    }
                }
                None => CompileOutcome::Bad,
            }
        }
        None => match spec_find(clause, seq![61u8], 0) {
            Some(i) => {
                let name = spec_trim(clause.subrange(0, i));
                let value = spec_trim(clause.subrange(i + 1, clause.len() as int));
                match spec_col_id(map, name) {
                    Some(cid) => match spec_parse_i64(value) {
                        Some(v) => CompileOutcome::EqForm(cid, v),
                        None => CompileOutcome::Bad,
                    },
                    None => CompileOutcome::Bad,
                }
            }
            None => CompileOutcome::Bad,
        },
    }
}

/// Strip surrounding whitespace.
fn trim_bytes(s: &[u8]) -> (r: Vec<u8>)
    ensures
        r@ == spec_trim(s@),
{
    let mut i: usize = 0;
    let mut j: usize = s.len();
    while i < j && (s[i] == 32 || s[i] == 9 || s[i] == 10 || s[i] == 13)
        invariant
            0 <= i <= j <= s@.len(),
            forall|k: int| 0 <= k < i ==> is_ws(s@[k]),
            j == s@.len(),
        decreases j - i,
    {
        i = i + 1;
    }
    while j > i && (s[j - 1] == 32 || s[j - 1] == 9 || s[j - 1] == 10 || s[j - 1] == 13)
        invariant
            0 <= i <= j <= s@.len(),
            forall|k: int| 0 <= k < i ==> is_ws(s@[k]),
            forall|k: int| j <= k < s@.len() ==> is_ws(s@[k]),
            i < j ==> !is_ws(s@[i as int]),
        decreases j,
    {
        j = j - 1;
    }
    proof {
        lemma_trim_window(s@, i as int, j as int);
    }
    match crate::wire::parse_bytes(s, i, j - i) {
        Some((v, _)) => v,
        None => Vec::new(),
    }
}

/// Trimming an all-whitespace string leaves nothing.
proof fn lemma_trim_all_ws(s: Seq<u8>)
    requires
        forall|k: int| 0 <= k < s.len() ==> is_ws(#[trigger] s[k]),
    ensures
        spec_trim(s) == Seq::<u8>::empty(),
    decreases s.len(),
{
    if s.len() > 0 {
        lemma_trim_all_ws(s.drop_first());
    } else {
        assert(s =~= Seq::<u8>::empty());
    }
}

/// Trimming keeps exactly the window between the outer whitespace runs.
proof fn lemma_trim_window(s: Seq<u8>, i: int, j: int)
    requires
        0 <= i <= j <= s.len(),
        forall|k: int| 0 <= k < i ==> is_ws(#[trigger] s[k]),
        forall|k: int| j <= k < s.len() ==> is_ws(#[trigger] s[k]),
        i < j ==> !is_ws(s[i]) && !is_ws(s[j - 1]),
    ensures
        spec_trim(s) == s.subrange(i, j),
    decreases s.len(),
{
    if i == j {
        lemma_trim_all_ws(s);
        assert(s.subrange(i, j) =~= Seq::<u8>::empty());
    } else if is_ws(s[0]) {
        assert(i >= 1) by {
            if i == 0 {
                assert(!is_ws(s[0]));
            }
        }
        lemma_trim_window(s.drop_first(), i - 1, j - 1);
        assert(s.drop_first().subrange(i - 1, j - 1) =~= s.subrange(i, j));
    } else if is_ws(s[s.len() - 1]) {
        assert(j <= s.len() - 1) by {
            if j == s.len() {
                assert(!is_ws(s[j - 1]));
            }
        }
        lemma_trim_window(s.drop_last(), i, j);
        assert(s.drop_last().subrange(i, j) =~= s.subrange(i, j));
    } else {
        assert(i == 0) by {
            if i > 0 {
                assert(is_ws(s[0]));
            }
        }
        assert(j == s.len()) by {
            if j < s.len() {
                assert(is_ws(s[s.len() - 1]));
            }
        }
        assert(s.subrange(0, s.len() as int) =~= s);
    }
}


/// Find the first occurrence of `needle`, scanning left to right.
fn find_sub(s: &[u8], needle: &Vec<u8>) -> (r: Option<usize>)
    requires
        needle@.len() >= 1,
    ensures
        match r {
            Some(i) => spec_find(s@, needle@, 0) == Some(i as int),
            None => spec_find(s@, needle@, 0) is None,
        },
{
    if needle.len() > s.len() {
        proof {
            lemma_find_none(s@, needle@, 0);
        }
        return None;
    }
    let slen = s.len();
    let mut from: usize = 0;
    while from <= s.len() - needle.len()
        invariant
            needle@.len() >= 1,
            needle@.len() <= s@.len(),
            s@.len() == slen,
            from + needle@.len() <= s@.len() + 1,
            spec_find(s@, needle@, 0) == spec_find(s@, needle@, from as int),
        decreases s@.len() - from,
    {
        let mut k: usize = 0;
        let mut matched = true;
        while k < needle.len()
            invariant
                k <= needle@.len(),
                s@.len() == slen,
                from + needle@.len() <= s@.len(),
                matched ==> forall|t: int| 0 <= t < k ==> s@[from + t] == needle@[t],
                !matched ==> s@.subrange(from as int, from + needle@.len()) != needle@,
            decreases needle@.len() - k,
        {
            proof {
                assert(from + k < s@.len());
            }
            if s[from + k] != needle[k] {
                proof {
                    assert(s@.subrange(from as int, from + needle@.len())[k as int]
                        == s@[from + k]);
                }
                matched = false;
                k = needle.len();
            } else {
                k = k + 1;
            }
        }
        if matched {
            proof {
                assert(s@.subrange(from as int, from + needle@.len()) =~= needle@);
            }
            return Some(from);
        }
        from = from + 1;
    }
    proof {
        lemma_find_none(s@, needle@, from as int);
    }
    None
}

/// Past the last possible start, nothing is found.
proof fn lemma_find_none(s: Seq<u8>, needle: Seq<u8>, from: int)
    requires
        from + needle.len() > s.len() || needle.len() == 0 || from < 0,
    ensures
        spec_find(s, needle, from) is None,
{
}

/// Parse a signed decimal integer.
fn parse_i64_bytes(s: &[u8]) -> (r: Option<i64>)
    ensures
        r == spec_parse_i64(s@),
{
    let ghost whole = s@;
    let (neg, start) = if s.len() > 0 && s[0] == 45 {
        (true, 1usize)
    } else if s.len() > 0 && s[0] == 43 {
        (false, 1usize)
    } else {
        (false, 0usize)
    };
    let ghost d = if start == 1 { whole.drop_first() } else { whole };
    if start >= s.len() {
        proof {
            assert(d.len() == 0);
        }
        return None;
    }
    let mut acc: u128 = 0;
    let mut k: usize = start;
    while k < s.len()
        invariant
            start <= k <= s@.len(),
            start == 0 || start == 1,
            (start == 1) <==> (s@.len() > 0 && (s@[0] == 45 || s@[0] == 43)),
            neg <==> (s@.len() > 0 && s@[0] == 45),
            d == (if start == 1 { s@.drop_first() } else { s@ }),
            d.len() == s@.len() - start,
            forall|t: int| 0 <= t < k - start ==> 48 <= #[trigger] d[t] <= 57,
            acc == digits_val(d.take(k - start)),
            acc <= 0x8000_0000_0000_0000,
        decreases s@.len() - k,
    {
        let b = s[k];
        if b < 48 || b > 57 {
            proof {
                assert(d[k - start] == s@[k as int]);
                assert(!all_digits(d));
            }
            return None;
        }
        proof {
            lemma_digits_nonneg(d.take(k - start));
            assert(d.take(k + 1 - start).drop_last() =~= d.take(k - start));
            assert(d.take(k + 1 - start).last() == d[k - start]);
            assert(d[k - start] == s@[k as int]);
        }
        acc = acc * 10 + ((b - 48) as u128);
        if acc > 0x8000_0000_0000_0000 {
            proof {
                if all_digits(d) {
                    lemma_digits_prefix_le(d, k + 1 - start);
                }
            }
            return None;
        }
        k = k + 1;
    }
    proof {
        assert(d.take(d.len() as int) =~= d);
        assert(all_digits(d));
        assert(acc == digits_val(d));
    }
    if neg {
        proof {
            assert(spec_parse_i64(s@) == Some((-digits_val(d)) as i64));
            assert(((-(acc as i128)) as i64) as int == -(acc as int));
        }
        Some((-(acc as i128)) as i64)
    } else {
        if acc > 0x7FFF_FFFF_FFFF_FFFF {
            return None;
        }
        proof {
            assert(spec_parse_i64(s@) == Some(digits_val(d) as i64));
        }
        Some(acc as i64)
    }
}

/// Digit runs denote non-negative values.
proof fn lemma_digits_nonneg(s: Seq<u8>)
    requires
        forall|t: int| 0 <= t < s.len() ==> 48 <= #[trigger] s[t] <= 57,
    ensures
        digits_val(s) >= 0,
    decreases s.len(),
{
    if s.len() > 0 {
        assert(forall|t: int| 0 <= t < s.drop_last().len()
            ==> 48 <= #[trigger] s.drop_last()[t] <= 57);
        lemma_digits_nonneg(s.drop_last());
    }
}

/// A digit run is worth at least any of its prefixes.
proof fn lemma_digits_prefix_le(s: Seq<u8>, n: int)
    requires
        0 <= n <= s.len(),
        forall|t: int| 0 <= t < s.len() ==> 48 <= #[trigger] s[t] <= 57,
    ensures
        digits_val(s.take(n)) <= digits_val(s),
    decreases s.len() - n,
{
    if n < s.len() {
        lemma_digits_prefix_le(s, n + 1);
        assert(s.take(n + 1).drop_last() =~= s.take(n));
        assert(s.take(n + 1).last() == s[n]);
        lemma_digits_nonneg(s.take(n));
    } else {
        assert(s.take(n) =~= s);
    }
}

/// Resolve a column name against the map; the first entry wins.
fn col_id(map: &Vec<(Vec<u8>, u16)>, name: &Vec<u8>) -> (r: Option<u16>)
    ensures
        r == spec_col_id(map@, name@),
{
    proof {
        assert(map@.skip(0) =~= map@);
    }
    let mut i: usize = 0;
    while i < map.len()
        invariant
            i <= map@.len(),
            spec_col_id(map@, name@) == spec_col_id(map@.skip(i as int), name@),
        decreases map@.len() - i,
    {
        proof {
            assert(map@.skip(i as int).first() == map@[i as int]);
            assert(map@.skip(i as int).drop_first() =~= map@.skip(i + 1));
        }
        if crate::predicate::bytes_equal(&map[i].0, name) {
            return Some(map[i].1);
        }
        i = i + 1;
    }
    None
}

/// Trimming an all-parentheses string leaves nothing.
proof fn lemma_parens_all(s: Seq<u8>)
    requires
        forall|k: int| 0 <= k < s.len() ==> (#[trigger] s[k] == 40 || s[k] == 41),
    ensures
        spec_trim_parens(s) == Seq::<u8>::empty(),
    decreases s.len(),
{
    if s.len() > 0 {
        lemma_parens_all(s.drop_first());
    } else {
        assert(s =~= Seq::<u8>::empty());
    }
}

/// Paren-stripping keeps exactly the window between the outer paren runs.
proof fn lemma_parens_window(s: Seq<u8>, i: int, j: int)
    requires
        0 <= i <= j <= s.len(),
        forall|k: int| 0 <= k < i ==> (#[trigger] s[k] == 40 || s[k] == 41),
        forall|k: int| j <= k < s.len() ==> (#[trigger] s[k] == 40 || s[k] == 41),
        i < j ==> !(s[i] == 40 || s[i] == 41) && !(s[j - 1] == 40 || s[j - 1] == 41),
    ensures
        spec_trim_parens(s) == s.subrange(i, j),
    decreases s.len(),
{
    if i == j {
        lemma_parens_all(s);
        assert(s.subrange(i, j) =~= Seq::<u8>::empty());
    } else if s[0] == 40 || s[0] == 41 {
        assert(i >= 1) by {
            if i == 0 {
                assert(!(s[0] == 40 || s[0] == 41));
            }
        }
        lemma_parens_window(s.drop_first(), i - 1, j - 1);
        assert(s.drop_first().subrange(i - 1, j - 1) =~= s.subrange(i, j));
    } else if s[s.len() - 1] == 40 || s[s.len() - 1] == 41 {
        assert(j <= s.len() - 1) by {
            if j == s.len() {
                assert(!(s[j - 1] == 40 || s[j - 1] == 41));
            }
        }
        lemma_parens_window(s.drop_last(), i, j);
        assert(s.drop_last().subrange(i, j) =~= s.subrange(i, j));
    } else {
        assert(i == 0) by {
            if i > 0 {
                assert(s[0] == 40 || s[0] == 41);
            }
        }
        assert(j == s.len()) by {
            if j < s.len() {
                assert(s[s.len() - 1] == 40 || s[s.len() - 1] == 41);
            }
        }
        assert(s.subrange(0, s.len() as int) =~= s);
    }
}

/// Strip surrounding parentheses.
fn trim_parens(s: &[u8]) -> (r: Vec<u8>)
    ensures
        r@ == spec_trim_parens(s@),
{
    let mut i: usize = 0;
    let mut j: usize = s.len();
    while i < j && (s[i] == 40 || s[i] == 41)
        invariant
            0 <= i <= j <= s@.len(),
            forall|k: int| 0 <= k < i ==> (#[trigger] s@[k] == 40 || s@[k] == 41),
            j == s@.len(),
        decreases j - i,
    {
        i = i + 1;
    }
    while j > i && (s[j - 1] == 40 || s[j - 1] == 41)
        invariant
            0 <= i <= j <= s@.len(),
            forall|k: int| 0 <= k < i ==> (#[trigger] s@[k] == 40 || s@[k] == 41),
            forall|k: int| j <= k < s@.len() ==> (#[trigger] s@[k] == 40 || s@[k] == 41),
            i < j ==> !(s@[i as int] == 40 || s@[i as int] == 41),
        decreases j,
    {
        j = j - 1;
    }
    proof {
        lemma_parens_window(s@, i as int, j as int);
    }
    match crate::wire::parse_bytes(s, i, j - i) {
        Some((v, _)) => v,
        None => Vec::new(),
    }
}

/// Parse each comma-separated piece as an integer.
fn parse_in_values(s: &[u8]) -> (r: Option<Vec<i64>>)
    ensures
        match r {
            Some(v) => spec_in_values(split_commas(s@)) == Some(v@),
            None => spec_in_values(split_commas(s@)) is None,
        },
{
    let mut comma: Vec<u8> = Vec::new();
    comma.push(44);
    proof {
        assert(comma@ =~= seq![44u8]);
    }
    let mut vals: Vec<i64> = Vec::new();
    let mut pos: usize = 0;
    let ghost whole = s@;
    proof {
        assert(whole.skip(0) =~= whole);
        let t = spec_in_values(split_commas(whole));
        if t is Some {
            assert(vals@ + t.unwrap() =~= t.unwrap());
        }
    }
    loop
        invariant_except_break
            pos <= s@.len(),
            comma@ == seq![44u8],
            whole == s@,
            spec_in_values(split_commas(whole)) == (match spec_in_values(
                split_commas(whole.skip(pos as int)),
            ) {
                Some(rest) => Some(vals@ + rest),
                None => None::<Seq<i64>>,
            }),
        ensures
            spec_in_values(split_commas(whole)) == Some(vals@),
        decreases s@.len() + 1 - pos,
    {
        let tail = vstd::slice::slice_subrange(s, pos, s.len());
        proof {
            assert(tail@ =~= whole.skip(pos as int));
        }
        proof {
            lemma_spec_find_bounds(tail@, seq![44u8], 0);
        }
        let piece_end = match find_sub(tail, &comma) {
            Some(i) => i,
            None => tail.len(),
        };
        let piece = vstd::slice::slice_subrange(tail, 0, piece_end);
        proof {
            assert(piece@ =~= tail@.subrange(0, piece_end as int));
        }
        let trimmed = trim_bytes(piece);
        let v = match parse_i64_bytes(trimmed.as_slice()) {
            Some(v) => v,
            None => {
                proof {
                    lemma_in_values_head_bad(tail@, piece_end as int);
                }
                return None;
            }
        };
        let ghost pre = vals@;
        vals.push(v);
        if piece_end == tail.len() {
            proof {
                assert(piece@ =~= tail@);
                lemma_in_values_last(tail@, v);
                assert(pre + (seq![v] + Seq::<i64>::empty()) =~= vals@);
                assert(seq![v] + Seq::<i64>::empty() =~= seq![v]);
                assert(pre + seq![v] =~= vals@);
            }
            break;
        } else {
            proof {
                lemma_in_values_step(tail@, piece_end as int, v);
                let after = spec_in_values(split_commas(tail@.subrange(
                    piece_end + 1,
                    tail@.len() as int,
                )));
                if after is Some {
                    assert(vals@ + after.unwrap() =~= pre + (seq![v] + after.unwrap()));
                }
                assert(whole.skip(pos + piece_end + 1)
                    =~= tail@.subrange(piece_end + 1, tail@.len() as int));
            }
            pos = pos + piece_end + 1;
        }
    }
    Some(vals)
}

/// When the head piece fails to parse, the whole list fails.
proof fn lemma_in_values_head_bad(tail: Seq<u8>, piece_end: int)
    requires
        0 <= piece_end <= tail.len(),
        (match spec_find(tail, seq![44u8], 0) {
            Some(i) => i == piece_end,
            None => piece_end == tail.len(),
        }),
        spec_parse_i64(spec_trim(tail.subrange(0, piece_end))) is None,
    ensures
        spec_in_values(split_commas(tail)) is None,
{
    match spec_find(tail, seq![44u8], 0) {
        Some(i) => {
            assert(split_commas(tail).first() == tail.subrange(0, piece_end));
        }
        None => {
            assert(split_commas(tail).first() == tail);
            assert(tail.subrange(0, piece_end) =~= tail);
        }
    }
}

/// A last piece (no comma follows) closes the list.
proof fn lemma_in_values_last(tail: Seq<u8>, v: i64)
    requires
        spec_find(tail, seq![44u8], 0) is None,
        spec_parse_i64(spec_trim(tail)) == Some(v),
    ensures
        spec_in_values(split_commas(tail)) == Some(seq![v]),
{
    assert(split_commas(tail) == seq![tail]);
    let pieces = split_commas(tail);
    assert(pieces.first() == tail);
    assert(pieces.drop_first() =~= Seq::<Seq<u8>>::empty());
    assert(spec_in_values(Seq::<Seq<u8>>::empty()) == Some(Seq::<i64>::empty()));
    assert(seq![v] + Seq::<i64>::empty() =~= seq![v]);
}

/// A parsed head piece prepends to whatever the rest yields.
proof fn lemma_in_values_step(tail: Seq<u8>, piece_end: int, v: i64)
    requires
        spec_find(tail, seq![44u8], 0) == Some(piece_end),
        0 <= piece_end < tail.len(),
        spec_parse_i64(spec_trim(tail.subrange(0, piece_end))) == Some(v),
    ensures
        spec_in_values(split_commas(tail)) == (match spec_in_values(
            split_commas(tail.subrange(piece_end + 1, tail.len() as int)),
        ) {
            Some(rest) => Some(seq![v] + rest),
            None => None::<Seq<i64>>,
        }),
{
    let pieces = split_commas(tail);
    assert(pieces == seq![tail.subrange(0, piece_end)]
        + split_commas(tail.subrange(piece_end + 1, tail.len() as int)));
    assert(pieces.first() == tail.subrange(0, piece_end));
    assert(pieces.drop_first()
        =~= split_commas(tail.subrange(piece_end + 1, tail.len() as int)));
}


/// The compiled shape of `column = integer`.
pub open spec fn eq_shape(p: CompiledPredicate, cid: u16, v: i64) -> bool {
    &&& p.spec_code() == seq![
        Instruction::LoadColumn(cid),
        Instruction::PushConst(0),
        Instruction::Eq,
        Instruction::Return,
    ]
    &&& p.spec_cols() == seq![cid]
    &&& consts_view(p.spec_consts()) == seq![AbstractConstant::Integer(v)]
    &&& p.wf_wire()
}

/// The compiled shape of `column IN (integers)`.
pub open spec fn in_shape(p: CompiledPredicate, cid: u16, vals: Seq<i64>) -> bool {
    &&& p.spec_code() == seq![
        Instruction::LoadColumn(cid),
        Instruction::In(0),
        Instruction::Return,
    ]
    &&& p.spec_cols() == seq![cid]
    &&& consts_view(p.spec_consts()) == seq![AbstractConstant::IntSet(vals)]
    &&& p.wf_wire()
}

/// Compiles the two supported clause forms against a fixed column map.
#[derive(Debug)]
pub struct PredicateCompiler {
    column_map: Vec<(Vec<u8>, u16)>,
}

impl PredicateCompiler {
    /// The column-name-to-id map, in lookup order.
    pub closed spec fn spec_map(self) -> Seq<(Vec<u8>, u16)> {
        self.column_map@
    }

    /// A compiler over the given column map; names are byte strings.
    pub fn new(column_map: Vec<(Vec<u8>, u16)>) -> (r: Self)
        ensures
            r.spec_map() == column_map@,
    {
        PredicateCompiler { column_map }
    }

    /// Compile `column = integer` or `column IN (integer, ...)`. Anything
    /// else — an unknown column, a malformed integer, another operator — is
    /// a parse error, and an IN list beyond the wire format's size is too.
    pub fn compile_simple(&self, where_clause: &str) -> (r: Result<CompiledPredicate, String>)
        ensures
            match spec_compile(where_clause.spec_bytes(), self.spec_map()) {
                CompileOutcome::EqForm(cid, v) => r is Ok && eq_shape(r.unwrap(), cid, v),
                CompileOutcome::InForm(cid, vals) => {
                    if vals.len() <= 65535 {
                        r is Ok && in_shape(r.unwrap(), cid, vals)
                    } else {
                        r is Err
                    }
                },
                CompileOutcome::Bad => r is Err,
            },
    {
        let bytes = where_clause.as_bytes();
        let blen = bytes.len();
        let mut needle: Vec<u8> = Vec::new();
        needle.push(32);
        needle.push(73);
        needle.push(78);
        needle.push(32);
        proof {
            assert(needle@ =~= in_needle());
        }
        match find_sub(bytes, &needle) {
            Some(i) => {
                proof {
                    lemma_spec_find_bounds(bytes@, in_needle(), 0);
                }
                let name_part = vstd::slice::slice_subrange(bytes, 0, i);
                let rest_part = vstd::slice::slice_subrange(bytes, i + 4, blen);
                let name = trim_bytes(name_part);
                let rest = trim_bytes(rest_part);
                match col_id(&self.column_map, &name) {
                    Some(cid) => {
                        let stripped = trim_parens(rest.as_slice());
                        match parse_in_values(stripped.as_slice()) {
                            Some(vals) => {
                                if vals.len() > 65535 {
                                    return Err(parse_error());
                                }
                                let mut code: Vec<Instruction> = Vec::new();
                                code.push(Instruction::LoadColumn(cid));
                                code.push(Instruction::In(0));
                                code.push(Instruction::Return);
                                let mut cols: Vec<u16> = Vec::new();
                                cols.push(cid);
                                let ghost vals_view = vals@;
                                let mut consts: Vec<Constant> = Vec::new();
                                consts.push(Constant::IntSet(vals));
                                let p = CompiledPredicate::new(code, cols, consts);
                                proof {
                                    assert(p.spec_code() =~= seq![
                                        Instruction::LoadColumn(cid),
                                        Instruction::In(0),
                                        Instruction::Return,
                                    ]);
                                    assert(p.spec_cols() =~= seq![cid]);
                                    assert(consts_view(p.spec_consts())
                                        =~= seq![AbstractConstant::IntSet(vals_view)]);
                                    assert(crate::predicate::const_fits(p.spec_consts()[0]));
                                    assert(crate::predicate::fits_all(p.spec_consts()));
                                }
                                Ok(p)
                            }
                            None => Err(parse_error()),
                        }
                    }
                    None => Err(parse_error()),
                }
            }
            None => {
                let mut eq_needle: Vec<u8> = Vec::new();
                eq_needle.push(61);
                proof {
                    assert(eq_needle@ =~= seq![61u8]);
                }
                match find_sub(bytes, &eq_needle) {
                    Some(i) => {
                        proof {
                            lemma_spec_find_bounds(bytes@, seq![61u8], 0);
                        }
                        let name_part = vstd::slice::slice_subrange(bytes, 0, i);
                        let value_part = vstd::slice::slice_subrange(bytes, i + 1, blen);
                        let name = trim_bytes(name_part);
                        let value = trim_bytes(value_part);
                        match col_id(&self.column_map, &name) {
                            Some(cid) => match parse_i64_bytes(value.as_slice()) {
                                Some(v) => {
                                    let mut code: Vec<Instruction> = Vec::new();
                                    code.push(Instruction::LoadColumn(cid));
                                    code.push(Instruction::PushConst(0));
                                    code.push(Instruction::Eq);
                                    code.push(Instruction::Return);
                                    let mut cols: Vec<u16> = Vec::new();
                                    cols.push(cid);
                                    let mut consts: Vec<Constant> = Vec::new();
                                    consts.push(Constant::Integer(v));
                                    let p = CompiledPredicate::new(code, cols, consts);
                                    proof {
                                        assert(p.spec_code() =~= seq![
                                            Instruction::LoadColumn(cid),
                                            Instruction::PushConst(0),
                                            Instruction::Eq,
                                            Instruction::Return,
                                        ]);
                                        assert(p.spec_cols() =~= seq![cid]);
                                        assert(consts_view(p.spec_consts())
                                            =~= seq![AbstractConstant::Integer(v)]);
                                        assert(crate::predicate::const_fits(p.spec_consts()[0]));
                                        assert(crate::predicate::fits_all(p.spec_consts()));
                                    }
                                    Ok(p)
                                }
                                None => Err(parse_error()),
                            },
                            None => Err(parse_error()),
                        }
                    }
                    None => Err(parse_error()),
                }
            }
        }
    }
}

/// The message every clause parse failure carries.
fn parse_error() -> (r: String)
    ensures
        true,
{
    String::from_str("unsupported WHERE clause")
}

} // verus!
