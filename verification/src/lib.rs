//! A change-data-capture routing library: a three-stage shape router
//! (presence filter, exact fingerprint index, predicate evaluator) over a
//! lane-partitioned log-structured equality index.

use vstd::prelude::*;

pub mod assoc;
pub mod bitmap;
pub mod compaction;
pub mod compile;
pub mod hash;
pub mod lane;
pub mod lsm;
pub mod manifest;
pub mod manifest_wire;
pub mod metrics;
pub mod overlay;
pub mod predicate;
pub mod presence;
pub mod shape_index;
pub mod router;
pub mod segment;
pub mod shape_set;
pub mod varint;
pub mod wire;

verus! {

} // verus!
