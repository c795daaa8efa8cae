//! ULEB128 variable-length encoding for 32-bit unsigned integers.
//!
//! Values below 128 take one byte; each further 7 bits of magnitude adds a
//! byte, up to five bytes in all. Decoding never reads past the input and
//! rejects sequences that do not terminate.

use vstd::prelude::*;

verus! {

/// Why a byte sequence failed to decode as a varint.
#[derive(Debug, Clone, Copy, PartialEq, Eq, Structural)]
pub enum VarintError {
    /// The input ended before a terminating byte (high bit clear) was seen.
    Truncated,
    /// The fifth byte still had its continuation bit set.
    Unterminated,
}

/// The ULEB128 encoding of `value`: low seven bits first, the high bit of
/// each byte marking that more bytes follow.
pub open spec fn uleb(value: u32) -> Seq<u8>
    decreases value,
{
    if value < 128 {
        seq![value as u8]
    } else {
        seq![(value % 128 + 128) as u8] + uleb(value / 128)
    }
}

/// The number of bytes `uleb(value)` takes, written as a range check.
pub open spec fn spec_encoded_size(value: u32) -> int {
    if value < 128 {
        1
    } else if value < 16384 {
        2
    } else if value < 2097152 {
        3
    } else if value < 268435456 {
        4
    } else {
        5
    }
}

/// What decoding yields on arbitrary bytes: the accumulated value and the
/// number of bytes consumed, or the error. `i` is the next byte to read and
/// `acc` the bits gathered so far.
pub open spec fn spec_decode_from(bytes: Seq<u8>, i: int, acc: u32) -> Result<(u32, int), VarintError>
    decreases 5 - i,
{
    if i >= 5 {
        Err(VarintError::Unterminated)
    } else if i >= bytes.len() {
        Err(VarintError::Truncated)
    } else {
        let acc2 = acc | (((bytes[i] % 128) as u32) << ((7 * i) as u32));
        if bytes[i] < 128 {
            Ok((acc2, i + 1))
        } else {
            spec_decode_from(bytes, i + 1, acc2)
        }
    }
}

/// Decoding a whole input from its start.
pub open spec fn spec_decode(bytes: Seq<u8>) -> Result<(u32, int), VarintError> {
    spec_decode_from(bytes, 0, 0)
}

proof fn lemma_uleb_len(value: u32)
    ensures
        uleb(value).len() == spec_encoded_size(value),
    decreases value,
{
    if value >= 128 {
        lemma_uleb_len(value / 128);
    }
}

/// Decoding an encoded value consumes exactly the bytes the encoder wrote —
/// whatever follows them — and yields the value back; the encoding takes
/// between one and five bytes.
pub proof fn lemma_varint_round_trip(v: u32, rest: Seq<u8>)
    ensures
        spec_decode(uleb(v) + rest) == Ok::<(u32, int), VarintError>((v, uleb(v).len() as int)),
        1 <= uleb(v).len() <= 5,
{
    lemma_uleb_len(v);
    let bytes = uleb(v) + rest;
    if v < 128 {
        assert(bytes[0] == v as u8);
        let a1 = 0u32 | (((v as u8 % 128) as u32) << 0u32);
        assert(a1 == v) by (bit_vector)
            requires a1 == 0u32 | (((v as u8 % 128) as u32) << 0u32) && v < 128;
    } else {
        let w1 = v / 128;
        let b0 = (v % 128 + 128) as u8;
        assert(bytes[0] == b0 && b0 >= 128);
        let a1 = 0u32 | (((b0 % 128) as u32) << 0u32);
        assert(a1 == v % 128) by (bit_vector)
            requires a1 == 0u32 | ((((v % 128 + 128) as u8 % 128) as u32) << 0u32);
        assert(spec_decode(bytes) == spec_decode_from(bytes, 1, a1));
        if w1 < 128 {
            assert(uleb(w1) == seq![w1 as u8]);
            assert(bytes[1] == w1 as u8 && (w1 as u8) < 128);
            let a2 = a1 | (((w1 as u8 % 128) as u32) << 7u32);
            assert(a2 == v) by (bit_vector)
                requires a2 == (v % 128) | ((((v / 128) as u8 % 128) as u32) << 7u32) && v < 16384;
        } else {
            let w2 = w1 / 128;
            let b1 = (w1 % 128 + 128) as u8;
            assert(uleb(w1) == seq![b1] + uleb(w2));
            assert(bytes[1] == b1 && b1 >= 128);
            let a2 = a1 | (((b1 % 128) as u32) << 7u32);
            assert(a2 == (v % 128) | ((w1 % 128) << 7u32)) by (bit_vector)
                requires a2 == (v % 128) | ((((v / 128 % 128 + 128) as u8 % 128) as u32) << 7u32)
                    && w1 == v / 128;
            assert(spec_decode_from(bytes, 1, a1) == spec_decode_from(bytes, 2, a2));
            if w2 < 128 {
                assert(uleb(w2) == seq![w2 as u8]);
                assert(bytes[2] == w2 as u8 && (w2 as u8) < 128);
                let a3 = a2 | (((w2 as u8 % 128) as u32) << 14u32);
                assert(a3 == v) by (bit_vector)
                    requires a3 == ((v % 128) | ((v / 128 % 128) << 7u32))
                        | ((((v / 128 / 128) as u8 % 128) as u32) << 14u32)
                        && v < 2097152
                        && a2 == (v % 128) | ((v / 128 % 128) << 7u32);
            } else {
                let w3 = w2 / 128;
                let b2 = (w2 % 128 + 128) as u8;
                assert(uleb(w2) == seq![b2] + uleb(w3));
                assert(bytes[2] == b2 && b2 >= 128);
                let a3 = a2 | (((b2 % 128) as u32) << 14u32);
                assert(a3 == a2 | ((w2 % 128) << 14u32)) by (bit_vector)
                    requires a3 == a2 | ((((w2 % 128 + 128) as u8 % 128) as u32) << 14u32);
                assert(spec_decode_from(bytes, 2, a2) == spec_decode_from(bytes, 3, a3));
                if w3 < 128 {
                    assert(uleb(w3) == seq![w3 as u8]);
                    assert(bytes[3] == w3 as u8 && (w3 as u8) < 128);
                    let a4 = a3 | (((w3 as u8 % 128) as u32) << 21u32);
                    assert(a4 == v) by (bit_vector)
                        requires a4 == a3 | ((((v / 128 / 128 / 128) as u8 % 128) as u32) << 21u32)
                            && a3 == ((v % 128) | ((v / 128 % 128) << 7u32)) | ((v / 128 / 128 % 128) << 14u32)
                            && v < 268435456;
                } else {
                    let w4 = w3 / 128;
                    let b3 = (w3 % 128 + 128) as u8;
                    assert(uleb(w3) == seq![b3] + uleb(w4));
                    assert(bytes[3] == b3 && b3 >= 128);
                    let a4 = a3 | (((b3 % 128) as u32) << 21u32);
                    assert(a4 == a3 | ((w3 % 128) << 21u32)) by (bit_vector)
                        requires a4 == a3 | ((((w3 % 128 + 128) as u8 % 128) as u32) << 21u32);
                    assert(spec_decode_from(bytes, 3, a3) == spec_decode_from(bytes, 4, a4));
                    assert(w4 < 128) by (bit_vector)
                        requires w4 == v / 128 / 128 / 128 / 128;
                    assert(uleb(w4) == seq![w4 as u8]);
                    assert(bytes[4] == w4 as u8 && (w4 as u8) < 128);
                    let a5 = a4 | (((w4 as u8 % 128) as u32) << 28u32);
                    assert(a5 == v) by (bit_vector)
                        requires a5 == a4 | ((((v / 128 / 128 / 128 / 128) as u8 % 128) as u32) << 28u32)
                            && a4 == (((v % 128) | ((v / 128 % 128) << 7u32)) | ((v / 128 / 128 % 128) << 14u32))
                                | ((v / 128 / 128 / 128 % 128) << 21u32)
                            && v >= 268435456;
                }
            }
        }
    }
}

/// A successful decode consumes between one and five bytes, never more than
/// the input holds.
pub proof fn lemma_decode_bounds(bytes: Seq<u8>)
    ensures
        spec_decode(bytes) matches Ok((v, used)) ==> 1 <= used <= bytes.len() && used <= 5,
{
    lemma_decode_from_bounds(bytes, 0, 0);
}

proof fn lemma_decode_from_bounds(bytes: Seq<u8>, i: int, acc: u32)
    requires
        0 <= i <= 5,
    ensures
        spec_decode_from(bytes, i, acc) matches Ok((v, used))
            ==> i + 1 <= used <= bytes.len() && used <= 5,
    decreases 5 - i,
{
    if i < 5 && i < bytes.len() {
        let acc2 = acc | (((bytes[i] % 128) as u32) << ((7 * i) as u32));
        if bytes[i] >= 128 {
            lemma_decode_from_bounds(bytes, i + 1, acc2);
        }
    }
}

/// Append the ULEB128 encoding of `value` to `buf`.
pub fn encode_u32(buf: &mut Vec<u8>, value: u32)
    ensures
        final(buf)@ == old(buf)@ + uleb(value),
    decreases value,
{
    if value < 128 {
        buf.push(value as u8);
        assert(buf@ =~= old(buf)@ + uleb(value));
    } else {
        buf.push((value % 128 + 128) as u8);
        encode_u32(buf, value / 128);
        assert(buf@ =~= old(buf)@ + uleb(value));
    }
}

/// Decode a ULEB128 value from the front of `buf`, returning the value and
/// the number of bytes consumed.
pub fn decode_u32(buf: &[u8]) -> (r: Result<(u32, usize), VarintError>)
    ensures
        match r {
            Ok((value, used)) => spec_decode(buf@) == Ok::<(u32, int), VarintError>((value, used as int)),
            Err(e) => spec_decode(buf@) == Err::<(u32, int), VarintError>(e),
        },
{
    let mut i: usize = 0;
    let mut acc: u32 = 0;
    while i < 5
        invariant
            i <= 5,
            spec_decode(buf@) == spec_decode_from(buf@, i as int, acc),
        decreases 5 - i,
    {
        if i >= buf.len() {
            return Err(VarintError::Truncated);
        }
        let b = buf[i];
        acc = acc | (((b % 128) as u32) << ((7 * i) as u32));
        if b < 128 {
            return Ok((acc, i + 1));
        }
        i = i + 1;
    }
    Err(VarintError::Unterminated)
}

/// The number of bytes `encode_u32` writes for `value`, between one and five.
pub fn encoded_size(value: u32) -> (r: usize)
    ensures
        r == uleb(value).len(),
        1 <= r <= 5,
{
    proof {
        lemma_uleb_len(value);
    }
    if value < 128 {
        1
    } else if value < 16384 {
        2
    } else if value < 2097152 {
        3
    } else if value < 268435456 {
        4
    } else {
        5
    }
}

} // verus!
