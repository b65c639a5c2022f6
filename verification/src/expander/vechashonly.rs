//! Hash-only expander over a selectable digest algorithm.
//!
//! The lossy mode, generic in the digest: in this mode the hash function is
//! semantic, since the digest itself is the key.  Distinct itemsets may
//! collide to one digest and be silently merged; the reported count can
//! undercount, never overcount.

use vstd::prelude::*;

use crate::digest::{batch_digest_contract, expand_parsed, Digest, DigestStore};
use crate::expander::vec::all_records_unique;
use crate::JsonSet;

verus! {

/// Expander whose keys are digests of the canonical item sequences,
/// computed by the chosen digest algorithm `D`.
pub struct VecHashOnlyExpander<D> {
    pub marker: core::marker::PhantomData<D>,
}

impl<D: Digest> VecHashOnlyExpander<D> {
    /// Expand a whole batch into one shared digest store.  Each record's
    /// items must be unique within that record.
    pub fn expand(parsed_set: Vec<JsonSet>) -> (store: DigestStore)
        requires
            all_records_unique(parsed_set@),
        ensures
            batch_digest_contract::<D>(
                parsed_set@.map_values(|rec: JsonSet| rec.set@.to_set()),
                store,
            ),
    {
        expand_parsed::<D>(parsed_set)
    }
}

} // verus!
