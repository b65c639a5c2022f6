//! Cross-representation guarantees.

use vstd::prelude::*;

use crate::digest::{lemma_digest_count_bounded, DigestStore};
use crate::model::{batch_closure, lemma_batch_closure_duplicate, lemma_batch_closure_wf};

verus! {

/// Idempotence: duplicating an input itemset leaves the final store
/// unchanged, in membership and in size.  The batch is given by itemset
/// contents, so the duplicate may list its items in any order.  Every
/// expander ensures its contents equal the batch's expansion, so the
/// property carries to each of them.
pub proof fn lemma_duplicate_input_idempotent(
    batch: Seq<Set<u8>>,
    i: int,
    contents1: Set<Set<u8>>,
    contents2: Set<Set<u8>>,
)
    requires
        0 <= i < batch.len(),
        contents1 == batch_closure(batch),
        contents2 == batch_closure(batch.push(batch[i])),
    ensures
        contents1 == contents2,
        contents1.len() == contents2.len(),
{
    lemma_batch_closure_duplicate(batch, i);
}

/// Representation equivalence: any two stores that record exactly the
/// expansion of the same batch — as the value-sequence, packed-bitmask and
/// dynamic-bit-vector expanders all do — record the same itemsets and
/// report the same size.  A digest store built from the same batch never
/// reports a larger size: collisions can only merge itemsets.
pub proof fn lemma_representation_equivalence(
    batch: Seq<Set<u8>>,
    contents1: Set<Set<u8>>,
    contents2: Set<Set<u8>>,
    digest_store: DigestStore,
    hash: spec_fn(Seq<u8>) -> u64,
)
    requires
        forall|i: int| 0 <= i < batch.len() ==> (#[trigger] batch[i]).finite(),
        contents1 == batch_closure(batch),
        contents2 == batch_closure(batch),
        digest_store.sinv(hash),
        digest_store.model().subset_of(batch_closure(batch)),
    ensures
        contents1 == contents2,
        contents1.len() == contents2.len(),
        digest_store.keys().finite(),
        digest_store.keys().len() <= contents1.len(),
{
    lemma_batch_closure_wf(batch);
    lemma_digest_count_bounded(digest_store, hash, batch_closure(batch));
}

} // verus!
