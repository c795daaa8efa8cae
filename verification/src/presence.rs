//! The presence filter: an immutable approximate-membership structure over
//! a set of fingerprints. It never misses a member; a non-member may pass
//! with small probability, and the exact index behind it sorts those out.

use vstd::prelude::*;
use xorf::{BinaryFuse16, Filter};

verus! {

/// The binary-fuse filter this module wraps.
#[verifier::external_type_specification]
#[verifier::external_body]
pub struct ExBinaryFuse16(BinaryFuse16);

/// The set of fingerprints a built filter answers `true` for: a superset of
/// the keys it was built from.
pub uninterp spec fn fuse_approx(f: BinaryFuse16) -> Set<u64>;

/// Whether binary-fuse construction succeeds on this key vector.
/// Construction is deterministic: its seed sequence starts from a fixed
/// constant, so success is a function of the keys alone.
pub uninterp spec fn fuse_build_ok(keys: Seq<u64>) -> bool;

/// Relies on xorf's `BinaryFuse16::try_from(&Vec<u64>)`: construction from
/// distinct keys is deterministic in the key vector — the retry seeds are
/// drawn from a fixed starting constant — and on success the filter has no
/// false negatives. Duplicate keys are excluded: the constructor asserts
/// distinctness in debug builds.
#[verifier::external_body]
fn fuse_try_build(keys: &Vec<u64>) -> (r: Result<BinaryFuse16, String>)
    requires
        forall|i: int, j: int| 0 <= i < j < keys@.len() ==> keys@[i] != keys@[j],
    ensures
        r is Ok <==> fuse_build_ok(keys@),
        r is Ok ==> forall|i: int| 0 <= i < keys@.len()
            ==> fuse_approx(r.unwrap()).contains(#[trigger] keys@[i]),
{
    match BinaryFuse16::try_from(keys) {
        Ok(f) => Ok(f),
        Err(e) => Err(String::from(e)),
    }
}

/// Relies on xorf's `Filter::contains` for `BinaryFuse16`.
#[verifier::external_body]
fn fuse_contains(f: &BinaryFuse16, key: u64) -> (r: bool)
    ensures
        r == fuse_approx(*f).contains(key),
{
    f.contains(&key)
}

/// An approximate-membership filter over fingerprints. Immutable: updates
/// flow through a rebuild that constructs a fresh filter.
#[derive(Debug)]
pub struct PresenceFilter {
    filter: Option<BinaryFuse16>,
    key_count: usize,
}

impl PresenceFilter {
    /// The fingerprints the filter answers `true` for; empty for the empty
    /// filter.
    pub closed spec fn approx(self) -> Set<u64> {
        match self.filter {
            Some(f) => fuse_approx(f),
            None => Set::empty(),
        }
    }

    /// How many keys the filter was built from.
    pub closed spec fn spec_key_count(self) -> usize {
        self.key_count
    }

    /// A filter over nothing: every check misses.
    pub fn empty() -> (r: Self)
        ensures
            r.approx() == Set::<u64>::empty(),
            r.spec_key_count() == 0,
    {
        PresenceFilter { filter: None, key_count: 0 }
    }

    /// Build a filter over the given distinct fingerprints. An empty input
    /// always succeeds with the empty filter; a non-empty one succeeds
    /// exactly when the deterministic construction does, and the filter then
    /// answers `true` for every given key.
    pub fn build(keys: &Vec<u64>) -> (r: Result<Self, String>)
        requires
            forall|i: int, j: int| 0 <= i < j < keys@.len() ==> keys@[i] != keys@[j],
        ensures
            r is Ok ==> {
                &&& forall|i: int| 0 <= i < keys@.len()
                    ==> r.unwrap().approx().contains(#[trigger] keys@[i])
                &&& r.unwrap().spec_key_count() == keys@.len()
            },
            keys@.len() == 0 ==> r is Ok && r.unwrap().approx() == Set::<u64>::empty(),
            keys@.len() > 0 ==> (r is Ok <==> fuse_build_ok(keys@)),
    {
        if keys.len() == 0 {
            return Ok(PresenceFilter { filter: None, key_count: 0 });
        }
        match fuse_try_build(keys) {
            Ok(f) => Ok(PresenceFilter { filter: Some(f), key_count: keys.len() }),
            Err(e) => Err(e),
        }
    }

    /// Whether `key` may be present: never `false` for a key the filter was
    /// built over, always `false` on the empty filter.
    pub fn contains(&self, key: u64) -> (r: bool)
        ensures
            r == self.approx().contains(key),
    {
        match &self.filter {
            Some(f) => fuse_contains(f, key),
            None => false,
        }
    }

    /// A coarse estimate of the filter's memory, at about eighteen bits per
    /// key, pegged at `usize::MAX`.
    pub fn memory_bytes(&self) -> (r: usize)
        ensures
            self.spec_key_count() == 0 ==> r == 0,
            self.spec_key_count() > 0 ==> r == crate::lsm::pegged(
                (self.spec_key_count() * 18 + 7) / 8,
            ),
    {
        if self.key_count == 0 {
            0
        } else {
            let bits: u128 = (self.key_count as u128) * 18 + 7;
            let bytes: u128 = bits / 8;
            if bytes > usize::MAX as u128 {
                usize::MAX
            } else {
                bytes as usize
            }
        }
    }

    /// How many keys the filter was built from.
    pub fn key_count(&self) -> (r: usize)
        ensures
            r == self.spec_key_count(),
    {
        self.key_count
    }
}

} // verus!
