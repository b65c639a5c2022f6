//! Dynamic-bit-vector expander with a fixed 100-bit width.
//!
//! The simpler variant of the bit-vector representation: every key is a
//! 100-bit vector shared across the whole run, so item identifiers must lie
//! below 100.  An out-of-range item is reported as an error before any
//! expansion starts.

use vstd::prelude::*;

use crate::engine::{expand_works, Store, Workset};
use crate::expander::set::{bool_mask, bv_view, BitvStore};
use crate::expander::vec::all_records_unique;
use crate::model::{batch_closure, downward_closed};
use crate::workvec::VecWork;
use crate::{ExpandError, JsonSet};

verus! {

broadcast use vstd::set::group_set_axioms, vstd::seq::group_seq_axioms,
    vstd::seq_lib::group_seq_lib_default, vstd::set_lib::group_set_lib_default;

/// The fixed key width of this variant.
pub const NB_BITS: u8 = 100;

/// Whether every item of every record lies below the fixed width.
pub open spec fn all_below_width(batch: Seq<JsonSet>) -> bool {
    forall|i: int, j: int|
        0 <= i < batch.len() && 0 <= j < batch[i].set@.len() ==> #[trigger] batch[i].set@[j]
            < NB_BITS
}

/// A value of the batch that is outside the representable range.
pub open spec fn is_offending_width(batch: Seq<JsonSet>, v: u8) -> bool {
    exists|i: int, j: int|
        0 <= i < batch.len() && 0 <= j < batch[i].set@.len() && #[trigger] batch[i].set@[j] == v
            && v >= NB_BITS
}

/// Build the fixed-width bit-vector key of one itemset.
pub fn convert_itemset(itemset: &[u8]) -> (bv: bit_vec::BitVec)
    requires
        forall|i: int| 0 <= i < itemset@.len() ==> #[trigger] itemset@[i] < NB_BITS,
    ensures
        bv_view(bv) == bool_mask(itemset@.to_set(), NB_BITS as int),
{
    crate::expander::bitvec::convert_itemset(itemset, NB_BITS as usize)
}

/// Expander whose keys are bit vectors of the fixed width.
#[derive(Default)]
pub struct BitVecExploder;

impl BitVecExploder {
    /// Expand a whole batch into one shared store.
    ///
    /// Succeeds exactly when every item of every record lies below the fixed
    /// width; the resulting store holds the downward closure of the batch.
    /// Otherwise an offending value is reported and no expansion is
    /// performed.  Each record's items must be unique within that record.
    pub fn explode(parsed_set: Vec<JsonSet>) -> (r: Result<BitvStore, ExpandError>)
        requires
            all_records_unique(parsed_set@),
        ensures
            match r {
                Ok(store) => {
                    &&& all_below_width(parsed_set@)
                    &&& store.sinv()
                    &&& store.width == NB_BITS
                    &&& store.contents() == batch_closure(
                        parsed_set@.map_values(|rec: JsonSet| rec.set@.to_set()),
                    )
                    &&& downward_closed(store.contents())
                },
                Err(e) => {
                    &&& !all_below_width(parsed_set@)
                    &&& e matches ExpandError::ItemOutOfRange(v)
                        && is_offending_width(parsed_set@, v)
                },
            },
    {
        let ghost batch = parsed_set@.map_values(|rec: JsonSet| rec.set@.to_set());
        let mut works: Vec<VecWork> = Vec::new();
        let mut i: usize = 0;
        while i < parsed_set.len()
            invariant
                i <= parsed_set@.len(),
                works@.len() == i,
                all_records_unique(parsed_set@),
                batch == parsed_set@.map_values(|rec: JsonSet| rec.set@.to_set()),
                forall|k: int, j: int|
                    0 <= k < i && 0 <= j < parsed_set@[k].set@.len() ==> #[trigger] parsed_set@[k].set@[j] < NB_BITS,
                forall|k: int|
                    0 <= k < i ==> (#[trigger] works@[k]).inv() && works@[k].content() == batch[k]
                        && (forall|x: u8|
                            works@[k].content().contains(x) ==> (x as int) < NB_BITS as int),
            decreases parsed_set@.len() - i,
        {
            let rec = &parsed_set[i];
            let mut j: usize = 0;
            while j < rec.set.len()
                invariant
                    j <= rec.set@.len(),
                    rec == parsed_set@[i as int],
                    i < parsed_set@.len(),
                    forall|t: int| 0 <= t < j ==> #[trigger] rec.set@[t] < NB_BITS,
                decreases rec.set@.len() - j,
            {
                let v = rec.set[j];
                if v >= NB_BITS {
                    proof {
                        assert(parsed_set@[i as int].set@[j as int] == v);
                        assert(is_offending_width(parsed_set@, v));
                    }
                    return Err(ExpandError::ItemOutOfRange(v));
                }
                j = j + 1;
            }
            let w = VecWork::from_items(&rec.set);
            proof {
                assert forall|x: u8| w.content().contains(x) implies (x as int) < NB_BITS as int by {
                    let t = choose|t: int| 0 <= t < rec.set@.len() && rec.set@[t] == x;
                    assert(rec.set@[t] < NB_BITS);
                }
            }
            works.push(w);
            i = i + 1;
        }
        let mut store = BitvStore::new(NB_BITS as usize);
        let ghost fresh = store;
        proof {
            assert(works@.map_values(|w: VecWork| w.content()) =~= batch);
        }
        expand_works(works, &mut store);
        proof {
            assert(Set::<Set<u8>>::empty().union(batch_closure(batch)) =~= batch_closure(batch));
            crate::expander::set::lemma_accepts_pins_width(store, fresh);
        }
        Ok(store)
    }
}

} // verus!
