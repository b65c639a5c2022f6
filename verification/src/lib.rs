//! Downward closure of batches of itemsets.
//!
//! Given a batch of itemsets (sets of small integer identifiers), the crate
//! reconstructs every non-empty subset implied by each input itemset,
//! deduplicated across the whole batch, and reports the resulting collection.

use vstd::prelude::*;

pub mod bitman;
pub mod bitmask;
pub mod bitvec;
pub mod digest;
pub mod driver;
pub mod engine;
pub mod expander;
pub mod hashonly;
pub mod laws;
pub mod model;
pub mod workvec;

verus! {

/// One input record: the items of a single itemset.
pub struct JsonSet {
    pub set: Vec<u8>,
}

/// Why a batch was rejected before any expansion work was done.
#[derive(Clone, Copy, Debug, PartialEq, Eq, Structural)]
pub enum ExpandError {
    /// An item identifier exceeds the valid range of the active key
    /// representation; the offending value is carried along.
    ItemOutOfRange(u8),
}

} // verus!
