//! Value-sequence expander.
//!
//! The canonical key of an itemset is its strictly increasing item sequence;
//! any item value fits, so expansion never fails.  Each input record's items
//! must be unique within that record.

use vstd::prelude::*;

use crate::engine::{expand_works, Store, Workset};
use crate::expander::set::SeqStore;
use crate::model::{batch_closure, downward_closed};
use crate::workvec::VecWork;
use crate::JsonSet;

verus! {

broadcast use vstd::set::group_set_axioms, vstd::seq::group_seq_axioms,
    vstd::seq_lib::group_seq_lib_default, vstd::set_lib::group_set_lib_default;

/// Whether every record's items are unique within that record.
pub open spec fn all_records_unique(batch: Seq<JsonSet>) -> bool {
    forall|i: int| 0 <= i < batch.len() ==> (#[trigger] batch[i].set@).no_duplicates()
}

/// Expander whose keys are ordered value sequences.
pub struct VecExpander;

impl VecExpander {
    /// Expand a whole batch into one shared store: the result holds the
    /// downward closure of the batch.
    pub fn expand(parsed_set: Vec<JsonSet>) -> (store: SeqStore)
        requires
            all_records_unique(parsed_set@),
        ensures
            store.sinv(),
            store.contents() == batch_closure(
                parsed_set@.map_values(|rec: JsonSet| rec.set@.to_set()),
            ),
            downward_closed(store.contents()),
    {
        let ghost batch = parsed_set@.map_values(|rec: JsonSet| rec.set@.to_set());
        let mut works: Vec<VecWork> = Vec::new();
        let mut i: usize = 0;
        while i < parsed_set.len()
            invariant
                i <= parsed_set@.len(),
                works@.len() == i,
                all_records_unique(parsed_set@),
                batch == parsed_set@.map_values(|rec: JsonSet| rec.set@.to_set()),
                forall|k: int|
                    0 <= k < i ==> (#[trigger] works@[k]).inv() && works@[k].content() == batch[k],
            decreases parsed_set@.len() - i,
        {
            let rec = &parsed_set[i];
            let w = VecWork::from_items(&rec.set);
            works.push(w);
            i = i + 1;
        }
        let mut store = SeqStore::new();
        proof {
            assert(works@.map_values(|w: VecWork| w.content()) =~= batch);
        }
        expand_works(works, &mut store);
        proof {
            assert(Set::<Set<u8>>::empty().union(batch_closure(batch)) =~= batch_closure(batch));
        }
        store
    }
}

} // verus!
