//! Bitmask expander.
//!
//! The packed fixed-width key: item `i` (one-based, valid range 1 to 128)
//! maps to bit `i - 1` of a `u128`.  An out-of-range item is reported as an
//! error before any expansion starts.

use vstd::prelude::*;

use crate::bitman::{all_one_based, is_offending_one_based, convert_set_to_u128};
use crate::bitmask::{bits_of, MaskStore};
use crate::engine::Store;
use crate::model::{batch_closure, downward_closed};
use crate::{ExpandError, JsonSet};

verus! {

/// Pack a one-based itemset into its bitmask key: item `v` sets bit `v - 1`.
pub fn convert_itemset(sol: &[u8]) -> (r: u128)
    requires
        forall|i: int| 0 <= i < sol@.len() ==> 1 <= #[trigger] sol@[i] <= 128,
    ensures
        bits_of(r) == sol@.to_set(),
{
    convert_set_to_u128(sol)
}

/// Expander whose keys are packed bitmasks of one-based items.
pub struct BitManipulatorExpander;

impl BitManipulatorExpander {
    /// Expand a whole batch into one shared store.
    ///
    /// Succeeds exactly when every item of every record lies in 1 to 128; the
    /// resulting store holds the downward closure of the batch.  Otherwise an
    /// offending value is reported and no expansion is performed.
    pub fn expand(parsed_set: Vec<JsonSet>) -> (r: Result<MaskStore, ExpandError>)
        ensures
            match r {
                Ok(store) => {
                    &&& all_one_based(parsed_set@)
                    &&& store.sinv()
                    &&& store.contents() == batch_closure(
                        parsed_set@.map_values(|rec: JsonSet| rec.set@.to_set()),
                    )
                    &&& downward_closed(store.contents())
                },
                Err(e) => {
                    &&& !all_one_based(parsed_set@)
                    &&& e matches ExpandError::ItemOutOfRange(v)
                        && is_offending_one_based(parsed_set@, v)
                },
            },
    {
        crate::bitman::BitManipulatorExpander::explode(parsed_set)
    }
}

} // verus!
