//! Hash-only expander over the FNV digest.
//!
//! The lossy mode: only the 64-bit FNV digest of each canonical item
//! sequence is stored.  Distinct itemsets may collide to one digest and be
//! silently merged; the reported count can undercount, never overcount.

use vstd::prelude::*;

use crate::digest::{
    batch_digest_contract, expand_parsed, DigestStore, FnvDigest,
};
use crate::expander::vec::all_records_unique;
use crate::JsonSet;

verus! {

/// Expander whose keys are FNV digests of the canonical item sequences.
#[derive(Default)]
pub struct HashOnlyExploder;

impl HashOnlyExploder {
    /// Expand a whole batch into one shared digest store.  Each record's
    /// items must be unique within that record.
    pub fn explode(parsed_set: Vec<JsonSet>) -> (store: DigestStore)
        requires
            all_records_unique(parsed_set@),
        ensures
            batch_digest_contract::<FnvDigest>(
                parsed_set@.map_values(|rec: JsonSet| rec.set@.to_set()),
                store,
            ),
    {
        expand_parsed::<FnvDigest>(parsed_set)
    }
}

} // verus!
