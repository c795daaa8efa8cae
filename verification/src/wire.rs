//! Little-endian wire primitives for the crate's binary formats: fixed-width
//! integers and length-prefixed byte runs, with exact parse/print contracts.

use vstd::prelude::*;

verus! {

/// A 16-bit value, low byte first.
pub open spec fn le16(v: u16) -> Seq<u8> {
    seq![(v % 256) as u8, (v / 256) as u8]
}

/// A 64-bit value, low byte first.
pub open spec fn le64(v: u64) -> Seq<u8> {
    seq![
        (v & 0xFF) as u8,
        ((v >> 8) & 0xFF) as u8,
        ((v >> 16) & 0xFF) as u8,
        ((v >> 24) & 0xFF) as u8,
        ((v >> 32) & 0xFF) as u8,
        ((v >> 40) & 0xFF) as u8,
        ((v >> 48) & 0xFF) as u8,
        ((v >> 56) & 0xFF) as u8,
    ]
}

/// What reading two little-endian bytes at `pos` yields.
pub open spec fn spec_parse_u16(bytes: Seq<u8>, pos: int) -> Option<(u16, int)> {
    if 0 <= pos && pos + 2 <= bytes.len() {
        Some((((bytes[pos] + bytes[pos + 1] * 256) as u16), pos + 2))
    } else {
        None
    }
}

/// What reading eight little-endian bytes at `pos` yields.
pub open spec fn spec_parse_u64(bytes: Seq<u8>, pos: int) -> Option<(u64, int)> {
    if 0 <= pos && pos + 8 <= bytes.len() {
        Some((
            ((bytes[pos] + bytes[pos + 1] * 0x100 + bytes[pos + 2] * 0x10000
                + bytes[pos + 3] * 0x1000000 + bytes[pos + 4] * 0x100000000
                + bytes[pos + 5] * 0x10000000000 + bytes[pos + 6] * 0x1000000000000
                + bytes[pos + 7] * 0x100000000000000) as u64),
            pos + 8,
        ))
    } else {
        None
    }
}

/// Append a 16-bit value, low byte first.
pub fn put_u16(buf: &mut Vec<u8>, v: u16)
    ensures
        final(buf)@ == old(buf)@ + le16(v),
{
    buf.push((v % 256) as u8);
    buf.push((v / 256) as u8);
    proof {
        assert(buf@ =~= old(buf)@ + le16(v));
    }
}

/// Append a 64-bit value, low byte first.
pub fn put_u64(buf: &mut Vec<u8>, v: u64)
    ensures
        final(buf)@ == old(buf)@ + le64(v),
{
    buf.push((v & 0xFF) as u8);
    buf.push(((v >> 8) & 0xFF) as u8);
    buf.push(((v >> 16) & 0xFF) as u8);
    buf.push(((v >> 24) & 0xFF) as u8);
    buf.push(((v >> 32) & 0xFF) as u8);
    buf.push(((v >> 40) & 0xFF) as u8);
    buf.push(((v >> 48) & 0xFF) as u8);
    buf.push(((v >> 56) & 0xFF) as u8);
    proof {
        assert(buf@ =~= old(buf)@ + le64(v));
    }
}

/// Append a run of bytes as given.
pub fn put_bytes(buf: &mut Vec<u8>, src: &Vec<u8>)
    ensures
        final(buf)@ == old(buf)@ + src@,
{
    let mut i: usize = 0;
    while i < src.len()
        invariant
            i <= src@.len(),
            buf@ == old(buf)@ + src@.subrange(0, i as int),
        decreases src@.len() - i,
    {
        buf.push(src[i]);
        proof {
            assert(buf@ =~= old(buf)@ + src@.subrange(0, i + 1));
        }
        i = i + 1;
    }
    proof {
        assert(src@.subrange(0, src@.len() as int) =~= src@);
    }
}

/// Read one byte.
pub fn parse_u8(bytes: &[u8], pos: usize) -> (r: Option<(u8, usize)>)
    ensures
        match r {
            Some((v, end)) => pos + 1 <= bytes@.len() && v == bytes@[pos as int]
                && end == pos + 1,
            None => pos + 1 > bytes@.len(),
        },
{
    if pos < bytes.len() {
        Some((bytes[pos], pos + 1))
    } else {
        None
    }
}

/// Read a 16-bit value, low byte first.
pub fn parse_u16(bytes: &[u8], pos: usize) -> (r: Option<(u16, usize)>)
    ensures
        match r {
            Some((v, end)) => spec_parse_u16(bytes@, pos as int) == Some((v, end as int)),
            None => spec_parse_u16(bytes@, pos as int) is None,
        },
{
    if pos < bytes.len() && bytes.len() - pos >= 2 {
        let v: u16 = bytes[pos] as u16 + (bytes[pos + 1] as u16) * 256;
        Some((v, pos + 2))
    } else {
        None
    }
}

/// Read a 64-bit value, low byte first.
pub fn parse_u64(bytes: &[u8], pos: usize) -> (r: Option<(u64, usize)>)
    ensures
        match r {
            Some((v, end)) => spec_parse_u64(bytes@, pos as int) == Some((v, end as int)),
            None => spec_parse_u64(bytes@, pos as int) is None,
        },
{
    if pos < bytes.len() && bytes.len() - pos >= 8 {
        let v: u64 = bytes[pos] as u64
            + (bytes[pos + 1] as u64) * 0x100
            + (bytes[pos + 2] as u64) * 0x10000
            + (bytes[pos + 3] as u64) * 0x1000000
            + (bytes[pos + 4] as u64) * 0x100000000
            + (bytes[pos + 5] as u64) * 0x10000000000
            + (bytes[pos + 6] as u64) * 0x1000000000000
            + (bytes[pos + 7] as u64) * 0x100000000000000;
        Some((v, pos + 8))
    } else {
        None
    }
}

/// Read `n` raw bytes.
pub fn parse_bytes(bytes: &[u8], pos: usize, n: usize) -> (r: Option<(Vec<u8>, usize)>)
    ensures
        match r {
            Some((v, end)) => pos + n <= bytes@.len() && end == pos + n
                && v@ == bytes@.subrange(pos as int, pos + n),
            None => pos + n > bytes@.len(),
        },
{
    if pos <= bytes.len() && bytes.len() - pos >= n {
        let v = vstd::slice::slice_to_vec(
            vstd::slice::slice_subrange(bytes, pos, pos + n),
        );
        Some((v, pos + n))
    } else {
        None
    }
}

/// Reading two little-endian bytes back gives the written value.
pub proof fn lemma_le16_round_trip(bytes: Seq<u8>, pos: int, v: u16)
    requires
        0 <= pos,
        pos + 2 <= bytes.len(),
        bytes.subrange(pos, pos + 2) == le16(v),
    ensures
        spec_parse_u16(bytes, pos) == Some((v, pos + 2)),
{
    assert(bytes[pos] == le16(v)[0] && bytes[pos + 1] == le16(v)[1]) by {
        assert(bytes.subrange(pos, pos + 2)[0] == bytes[pos]);
        assert(bytes.subrange(pos, pos + 2)[1] == bytes[pos + 1]);
    }
    assert(v % 256 + (v / 256) * 256 == v) by (nonlinear_arith);
}

/// Reading eight little-endian bytes back gives the written value.
pub proof fn lemma_le64_round_trip(bytes: Seq<u8>, pos: int, v: u64)
    requires
        0 <= pos,
        pos + 8 <= bytes.len(),
        bytes.subrange(pos, pos + 8) == le64(v),
    ensures
        spec_parse_u64(bytes, pos) == Some((v, pos + 8)),
{
    assert forall|k: int| 0 <= k < 8 implies bytes[pos + k] == le64(v)[k] by {
        assert(bytes.subrange(pos, pos + 8)[k] == bytes[pos + k]);
    }
    let b0 = (v & 0xFF) as u8;
    let b1 = ((v >> 8) & 0xFF) as u8;
    let b2 = ((v >> 16) & 0xFF) as u8;
    let b3 = ((v >> 24) & 0xFF) as u8;
    let b4 = ((v >> 32) & 0xFF) as u8;
    let b5 = ((v >> 40) & 0xFF) as u8;
    let b6 = ((v >> 48) & 0xFF) as u8;
    let b7 = ((v >> 56) & 0xFF) as u8;
    assert(b0 + b1 * 0x100 + b2 * 0x10000 + b3 * 0x1000000 + b4 * 0x100000000
        + b5 * 0x10000000000 + b6 * 0x1000000000000 + b7 * 0x100000000000000 == v)
        by (bit_vector)
        requires
            b0 == (v & 0xFF) as u8,
            b1 == ((v >> 8) & 0xFF) as u8,
            b2 == ((v >> 16) & 0xFF) as u8,
            b3 == ((v >> 24) & 0xFF) as u8,
            b4 == ((v >> 32) & 0xFF) as u8,
            b5 == ((v >> 40) & 0xFF) as u8,
            b6 == ((v >> 48) & 0xFF) as u8,
            b7 == ((v >> 56) & 0xFF) as u8,
    ;
}


/// Whether a byte is an ASCII decimal digit.
pub open spec fn is_digit(b: u8) -> bool {
    48 <= b <= 57
}

/// A number in ASCII decimal, most significant digit first.
pub open spec fn dec_digits(v: u64) -> Seq<u8>
    decreases v,
{
    if v < 10 {
        seq![(48 + v) as u8]
    } else {
        dec_digits(v / 10) + seq![(48 + v % 10) as u8]
    }
}

/// Ten to the power `n`.
pub open spec fn pow10(n: nat) -> int
    decreases n,
{
    if n == 0 {
        1
    } else {
        10 * pow10((n - 1) as nat)
    }
}

/// The value a run of digit bytes denotes.
pub open spec fn digit_run_val(s: Seq<u8>) -> int
    decreases s.len(),
{
    if s.len() == 0 {
        0
    } else {
        digit_run_val(s.drop_last()) * 10 + (s.last() - 48)
    }
}

/// Greedy decimal parse from `pos` with `acc` gathered so far: stops at the
/// first non-digit, needs at least one digit in all, fails on overflow.
pub open spec fn spec_parse_dec_from(bytes: Seq<u8>, pos: int, acc: u64, seen: bool)
    -> Option<(u64, int)>
    decreases bytes.len() - pos,
{
    if pos < 0 || pos >= bytes.len() || !is_digit(bytes[pos]) {
        if seen {
            Some((acc, pos))
        } else {
            None
        }
    } else {
        if acc * 10 + (bytes[pos] - 48) > u64::MAX {
            None
        } else {
            spec_parse_dec_from(bytes, pos + 1, (acc * 10 + (bytes[pos] - 48)) as u64, true)
        }
    }
}

/// Greedy decimal parse from `pos`.
pub open spec fn spec_parse_dec(bytes: Seq<u8>, pos: int) -> Option<(u64, int)> {
    spec_parse_dec_from(bytes, pos, 0, false)
}

/// Append a number in ASCII decimal.
pub fn put_dec(buf: &mut Vec<u8>, v: u64)
    ensures
        final(buf)@ == old(buf)@ + dec_digits(v),
    decreases v,
{
    if v < 10 {
        buf.push(48 + v as u8);
        proof {
            assert(buf@ =~= old(buf)@ + dec_digits(v));
        }
    } else {
        put_dec(buf, v / 10);
        buf.push(48 + (v % 10) as u8);
        proof {
            assert(buf@ =~= old(buf)@ + dec_digits(v));
        }
    }
}

/// Read a number in ASCII decimal: at least one digit, greedy, failing on
/// a value beyond `u64`.
pub fn parse_dec(bytes: &[u8], pos: usize) -> (r: Option<(u64, usize)>)
    ensures
        match r {
            Some((v, end)) => spec_parse_dec(bytes@, pos as int) == Some((v, end as int)),
            None => spec_parse_dec(bytes@, pos as int) is None,
        },
{
    let blen = bytes.len();
    if pos >= blen {
        return None;
    }
    let mut acc: u64 = 0;
    let mut k: usize = pos;
    let mut seen = false;
    while k < blen && bytes[k] >= 48 && bytes[k] <= 57
        invariant
            pos <= k <= blen,
            blen == bytes@.len(),
            spec_parse_dec(bytes@, pos as int)
                == spec_parse_dec_from(bytes@, k as int, acc, seen),
        decreases blen - k,
    {
        let d = (bytes[k] - 48) as u64;
        if acc > (u64::MAX - d) / 10 {
            proof {
                assert(acc * 10 + d > u64::MAX) by (nonlinear_arith)
                    requires acc > (u64::MAX - d) / 10, d < 10, acc <= u64::MAX, d >= 0,
                ;
            }
            return None;
        }
        proof {
            assert(acc * 10 + d <= u64::MAX) by (nonlinear_arith)
                requires acc <= (u64::MAX - d) / 10, d < 10, acc >= 0, d >= 0,
            ;
        }
        acc = acc * 10 + d;
        seen = true;
        k = k + 1;
    }
    if seen {
        Some((acc, k))
    } else {
        None
    }
}

/// Every byte of a printed number is a digit.
proof fn lemma_pow10_pos(n: nat)
    ensures
        pow10(n) >= 1,
    decreases n,
{
    if n > 0 {
        lemma_pow10_pos((n - 1) as nat);
    }
}

proof fn lemma_dec_digits_are_digits(v: u64)
    ensures
        dec_digits(v).len() >= 1,
        forall|k: int| 0 <= k < dec_digits(v).len() ==> is_digit(#[trigger] dec_digits(v)[k]),
        pow10(dec_digits(v).len()) >= 1,
    decreases v,
{
    lemma_pow10_pos(dec_digits(v).len());
    if v >= 10 {
        lemma_dec_digits_are_digits(v / 10);
        assert forall|k: int| 0 <= k < dec_digits(v).len()
            implies is_digit(#[trigger] dec_digits(v)[k]) by {
            if k < dec_digits(v / 10).len() {
                assert(dec_digits(v)[k] == dec_digits(v / 10)[k]);
            }
        }
    }
}

/// A printed number reads back as its value.
proof fn lemma_dec_digits_val(v: u64)
    ensures
        digit_run_val(dec_digits(v)) == v,
    decreases v,
{
    if v < 10 {
        assert(dec_digits(v).drop_last() =~= Seq::<u8>::empty());
        assert(digit_run_val(Seq::<u8>::empty()) == 0);
    } else {
        lemma_dec_digits_val(v / 10);
        assert(dec_digits(v).drop_last() =~= dec_digits(v / 10));
        assert(dec_digits(v).last() == (48 + v % 10) as u8);
    }
}

/// A digit run decomposes at its first digit.
proof fn lemma_val_front(s: Seq<u8>)
    requires
        s.len() >= 1,
        forall|k: int| 0 <= k < s.len() ==> is_digit(#[trigger] s[k]),
    ensures
        digit_run_val(s) == (s[0] - 48) * pow10((s.len() - 1) as nat)
            + digit_run_val(s.drop_first()),
        digit_run_val(s.drop_first()) >= 0,
        digit_run_val(s.drop_first()) < pow10((s.len() - 1) as nat),
    decreases s.len(),
{
    if s.len() == 1 {
        assert(s.drop_first() =~= Seq::<u8>::empty());
        assert(s.drop_last() =~= Seq::<u8>::empty());
        assert(digit_run_val(Seq::<u8>::empty()) == 0);
        assert(s.last() == s[0]);
        assert(digit_run_val(s) == s[0] - 48);
    } else {
        let t = s.drop_last();
        assert(forall|k: int| 0 <= k < t.len() ==> is_digit(#[trigger] t[k]));
        lemma_val_front(t);
        assert(s.drop_first().drop_last() =~= t.drop_first());
        assert(t[0] == s[0]);
        let n = (s.len() - 2) as nat;
        assert(digit_run_val(s) == digit_run_val(t) * 10 + (s.last() - 48));
        assert(digit_run_val(s.drop_first())
            == digit_run_val(t.drop_first()) * 10 + (s.drop_first().last() - 48)) by {
            assert(s.drop_first().last() == s.last());
        }
        assert((s[0] - 48) * pow10((s.len() - 1) as nat) == ((s[0] - 48) * pow10(n)) * 10)
            by (nonlinear_arith)
            requires pow10((s.len() - 1) as nat) == 10 * pow10(n), s.len() >= 2,
        ;
        assert(digit_run_val(t) * 10 + (s.last() - 48)
            == ((s[0] - 48) * pow10(n) + digit_run_val(t.drop_first())) * 10
                + (s.last() - 48)) by (nonlinear_arith)
            requires digit_run_val(t) == (s[0] - 48) * pow10(n) + digit_run_val(t.drop_first()),
        ;
        assert(digit_run_val(t.drop_first()) * 10 + (s.last() - 48) < pow10(n) * 10)
            by (nonlinear_arith)
            requires
                digit_run_val(t.drop_first()) < pow10(n),
                digit_run_val(t.drop_first()) >= 0,
                s.last() - 48 < 10,
                s.last() - 48 >= 0,
        ;
    }
}

/// Parsing a digit run bounded by a non-digit folds it onto the
/// accumulator.
proof fn lemma_parse_digit_run(bytes: Seq<u8>, pos: int, acc: u64, seen: bool, n: int)
    requires
        0 <= pos,
        1 <= n,
        pos + n <= bytes.len(),
        forall|k: int| 0 <= k < n ==> is_digit(#[trigger] bytes[pos + k]),
        pos + n == bytes.len() || !is_digit(bytes[pos + n]),
        acc * pow10(n as nat) + digit_run_val(bytes.subrange(pos, pos + n)) <= u64::MAX,
        digit_run_val(bytes.subrange(pos, pos + n)) >= 0,
    ensures
        spec_parse_dec_from(bytes, pos, acc, seen) == Some((
            (acc * pow10(n as nat) + digit_run_val(bytes.subrange(pos, pos + n))) as u64,
            pos + n,
        )),
    decreases n,
{
    let run = bytes.subrange(pos, pos + n);
    assert forall|k: int| 0 <= k < run.len() implies is_digit(#[trigger] run[k]) by {
        assert(run[k] == bytes[pos + k]);
    }
    lemma_val_front(run);
    assert(run[0] == bytes[pos]);
    let d = (bytes[pos] - 48) as int;
    let m = (n - 1) as nat;
    assert(acc * pow10(n as nat) == (acc * 10) * pow10(m)) by (nonlinear_arith)
        requires pow10(n as nat) == 10 * pow10(m),
    ;
    assert(digit_run_val(run) == d * pow10(m) + digit_run_val(run.drop_first()));
    assert((acc * 10 + d) * pow10(m) == (acc * 10) * pow10(m) + d * pow10(m))
        by (nonlinear_arith);
    assert(acc * 10 + d <= u64::MAX) by (nonlinear_arith)
        requires
            (acc * 10 + d) * pow10(m) + digit_run_val(run.drop_first()) <= u64::MAX,
            pow10(m) >= 1,
            digit_run_val(run.drop_first()) >= 0,
            acc * 10 + d >= 0,
    ;
    if n == 1 {
        assert(run.drop_first() =~= Seq::<u8>::empty());
        assert(digit_run_val(run) == d);
        assert(spec_parse_dec_from(bytes, pos + 1, (acc * 10 + d) as u64, true)
            == Some(((acc * 10 + d) as u64, pos + 1)));
    } else {
        assert(run.drop_first() =~= bytes.subrange(pos + 1, pos + n));
        assert forall|k: int| 0 <= k < n - 1 implies is_digit(#[trigger] bytes[pos + 1 + k]) by {
            assert(is_digit(bytes[pos + (k + 1)]));
        }
        lemma_parse_digit_run(bytes, pos + 1, (acc * 10 + d) as u64, true, n - 1);
    }
}

/// Reading a printed number back, up to a non-digit boundary, yields the
/// number.
pub proof fn lemma_dec_round_trip(bytes: Seq<u8>, pos: int, v: u64)
    requires
        0 <= pos,
        pos + dec_digits(v).len() <= bytes.len(),
        bytes.subrange(pos, pos + dec_digits(v).len()) == dec_digits(v),
        pos + dec_digits(v).len() == bytes.len()
            || !is_digit(bytes[pos + dec_digits(v).len()]),
    ensures
        spec_parse_dec(bytes, pos) == Some((v, pos + dec_digits(v).len())),
{
    let n = dec_digits(v).len() as int;
    lemma_dec_digits_are_digits(v);
    lemma_dec_digits_val(v);
    assert(forall|k: int| 0 <= k < n ==> is_digit(#[trigger] bytes[pos + k])) by {
        assert(forall|k: int| 0 <= k < n
            ==> #[trigger] bytes[pos + k] == dec_digits(v)[k]) by {
            assert(forall|k: int| 0 <= k < n
                ==> bytes.subrange(pos, pos + n)[k] == #[trigger] bytes[pos + k]);
        }
    }
    lemma_parse_digit_run(bytes, pos, 0, false, n);
}

} // verus!
