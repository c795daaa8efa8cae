//! Key fingerprinting and lane assignment.
//!
//! A primary-key byte string is hashed to a 64-bit fingerprint with
//! SipHash-2-4 under a process-wide fixed key, and a fingerprint is mapped to
//! a lane in `[0, N)` by a jump-consistent hash, so that changing the lane
//! count moves only a small share of the keys.

use vstd::prelude::*;
use siphasher::sip::SipHasher24;
use std::hash::Hasher;

verus! {

/// What SipHash-2-4 under the fixed all-zero key digests a byte string to;
/// a function of the bytes alone.
pub uninterp spec fn sip_hash_of(bytes: Seq<u8>) -> u64;

/// Relies on siphasher's `SipHasher24::write` and `finish`: feeding the same
/// bytes to a hasher with the same (all-zero) key yields the same digest on
/// every machine.
#[verifier::external_body]
fn sip_hash_bytes(bytes: &[u8]) -> (r: u64)
    ensures
        r == sip_hash_of(bytes@),
{
    let mut hasher = SipHasher24::new();
    hasher.write(bytes);
    hasher.finish()
}

/// The multiplier of the linear-congruential step inside the jump hash.
pub const JUMP_LCG_MULTIPLIER: u64 = 2862933555777941757;

/// One step of the generator that drives the jump hash.
pub open spec fn spec_jump_step(key: u64) -> u64 {
    vstd::wrapping::u64_specs::wrapping_add(
        vstd::wrapping::u64_specs::wrapping_mul(key, JUMP_LCG_MULTIPLIER),
        1,
    )
}

/// The bucket the jump hash settles on, starting from generator state `key`
/// with `b` the last bucket seen and `j` the next candidate. The candidate
/// strictly grows each round, so the walk ends.
#[verifier::opaque]
pub open spec fn spec_jump_from(key: u64, num_buckets: u32, b: u64, j: u64) -> u64
    decreases (if j < num_buckets { num_buckets - j } else { 0int })
        via spec_jump_from_decreases
{
    if j >= num_buckets {
        b
    } else {
        let key2 = spec_jump_step(key);
        let divisor = (((key2 >> 33) + 1) as u64);
        let product = (#[verifier::truncate] (((j + 1) * 0x80000000) as u64));
        let j2 = product / divisor;
        spec_jump_from(key2, num_buckets, j, j2)
    }
}

proof fn lemma_jump_quotient(key2: u64, j: u64)
    requires
        j < 0x1_0000_0000,
    ensures
        key2 >> 33 < 0x80000000u64,
        1 <= (((key2 >> 33) + 1) as u64) <= 0x80000000u64,
        (j + 1) * 0x80000000 <= 0x8000000000000000,
        ((j + 1) * 0x80000000) as u64 / (((key2 >> 33) + 1) as u64) > j,
{
    assert(key2 >> 33 < 0x80000000u64) by (bit_vector);
    let divisor = (((key2 >> 33) + 1) as u64);
    assert((j + 1) * 0x80000000 <= 0x1_0000_0000 * 0x80000000) by (nonlinear_arith)
        requires j + 1 <= 0x1_0000_0000,
    ;
    let product = ((j + 1) * 0x80000000) as u64;
    assert(product >= (j + 1) * divisor) by (nonlinear_arith)
        requires
            product == (j + 1) * 0x80000000,
            1 <= divisor <= 0x80000000u64,
    ;
    assert(product / divisor >= j + 1) by (nonlinear_arith)
        requires
            product >= (j + 1) * divisor,
            divisor >= 1,
    ;
}

#[via_fn]
proof fn spec_jump_from_decreases(key: u64, num_buckets: u32, b: u64, j: u64) {
    reveal(spec_jump_from);
    if j < num_buckets {
        let key2 = spec_jump_step(key);
        lemma_jump_quotient(key2, j);
    }
}

/// Where the jump hash puts `key` among `num_buckets` buckets.
pub open spec fn spec_jump(key: u64, num_buckets: u32) -> u64 {
    spec_jump_from(key, num_buckets, 0, 0)
}

proof fn lemma_jump_from_in_range(key: u64, num_buckets: u32, b: u64, j: u64)
    requires
        num_buckets >= 1,
        b < num_buckets,
    ensures
        spec_jump_from(key, num_buckets, b, j) < num_buckets,
    decreases (if j < num_buckets { num_buckets - j } else { 0int }),
{
    reveal(spec_jump_from);
    if j < num_buckets {
        let key2 = spec_jump_step(key);
        lemma_jump_quotient(key2, j);
        let divisor = (((key2 >> 33) + 1) as u64);
        let product = (#[verifier::truncate] (((j + 1) * 0x80000000) as u64));
        let j2 = product / divisor;
        lemma_jump_from_in_range(key2, num_buckets, j, j2);
    }
}

/// A fingerprint's bucket always lies in `[0, num_buckets)`.
pub proof fn lemma_jump_in_range(key: u64, num_buckets: u32)
    requires
        num_buckets >= 1,
    ensures
        spec_jump(key, num_buckets) < num_buckets,
{
    lemma_jump_from_in_range(key, num_buckets, 0, 0);
}

/// Jump-consistent hash: map a 64-bit key to a bucket in `[0, num_buckets)`.
/// Deterministic, roughly uniform, and when the bucket count grows by one
/// only about one key in `num_buckets` moves.
pub fn jump_consistent_hash(key: u64, num_buckets: u32) -> (r: u32)
    requires
        num_buckets >= 1,
    ensures
        r < num_buckets,
        r == spec_jump(key, num_buckets),
{
    proof {
        reveal(spec_jump_from);
    }
    let mut state: u64 = key;
    let mut b: u64 = 0;
    let mut j: u64 = 0;
    while j < num_buckets as u64
        invariant
            num_buckets >= 1,
            b < num_buckets,
            spec_jump(key, num_buckets) == spec_jump_from(state, num_buckets, b, j),
        decreases (if j < num_buckets { num_buckets - j } else { 0int }),
    {
        let ghost pre_state = state;
        let ghost pre_b = b;
        let ghost pre_j = j;
        b = j;
        state = state.wrapping_mul(JUMP_LCG_MULTIPLIER).wrapping_add(1);
        proof {
            lemma_jump_quotient(state, j);
        }
        let divisor: u64 = (state >> 33) + 1;
        let product: u64 = (j + 1) * 0x80000000u64;
        j = product / divisor;
        proof {
            reveal(spec_jump_from);
            assert(state == spec_jump_step(pre_state));
            assert(spec_jump_from(pre_state, num_buckets, pre_b, pre_j)
                == spec_jump_from(state, num_buckets, b, j));
        }
    }
    proof {
        reveal(spec_jump_from);
    }
    b as u32
}

/// A 64-bit fingerprint of a primary-key byte string, used as the sole
/// lookup key in every index of this crate.
#[derive(Debug, Clone, Copy, PartialEq, Eq, Hash, Structural)]
pub struct KeyHash(pub u64);

/// The lane that owns fingerprint `h` among `num_lanes` lanes.
pub open spec fn spec_lane_of(h: u64, num_lanes: usize) -> usize {
    spec_jump(h, num_lanes as u32) as usize
}

/// Every fingerprint's lane lies in `[0, num_lanes)`: lane assignment is
/// total and never strays outside the lane list.
pub proof fn lemma_lane_of_range(h: u64, num_lanes: usize)
    requires
        1 <= num_lanes <= u32::MAX,
    ensures
        spec_lane_of(h, num_lanes) < num_lanes,
{
    lemma_jump_in_range(h, num_lanes as u32);
}

impl KeyHash {
    /// Fingerprint a byte string with SipHash-2-4.
    pub fn from_bytes(bytes: &[u8]) -> (r: Self)
        ensures
            r.0 == sip_hash_of(bytes@),
    {
        KeyHash(sip_hash_bytes(bytes))
    }

    /// The lane this fingerprint belongs to, always below `num_lanes`.
    pub fn lane(&self, num_lanes: usize) -> (r: usize)
        requires
            1 <= num_lanes <= u32::MAX,
        ensures
            r < num_lanes,
            r == spec_lane_of(self.0, num_lanes),
    {
        jump_consistent_hash(self.0, num_lanes as u32) as usize
    }

    /// The raw 64-bit fingerprint.
    pub fn value(&self) -> (r: u64)
        ensures
            r == self.0,
    {
        self.0
    }
}

} // verus!
