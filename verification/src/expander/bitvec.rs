//! Dynamic-bit-vector expander.
//!
//! The canonical key of an itemset is a bit vector whose width is computed
//! once per batch as one more than the largest item identifier seen, so
//! every item of the batch fits and expansion never fails.  An empty record
//! contributes nothing to the width and is recorded under the all-zero key.

use vstd::prelude::*;

use crate::engine::{expand_works, Store, Workset};
use crate::expander::set::{bool_mask, bv_view, BitvStore};
use crate::expander::vec::all_records_unique;
use crate::model::{batch_closure, downward_closed};
use crate::workvec::VecWork;
use crate::JsonSet;

verus! {

broadcast use vstd::set::group_set_axioms, vstd::seq::group_seq_axioms,
    vstd::seq_lib::group_seq_lib_default, vstd::set_lib::group_set_lib_default;

/// Build the bit-vector key of one itemset: bit `i` is set exactly when item
/// `i` occurs in the itemset.
pub fn convert_itemset(itemset: &[u8], nb_bits: usize) -> (bv: bit_vec::BitVec)
    requires
        forall|i: int| 0 <= i < itemset@.len() ==> (#[trigger] itemset@[i] as int) < nb_bits,
        nb_bits <= 256,
    ensures
        bv_view(bv) == bool_mask(itemset@.to_set(), nb_bits as int),
{
    let ghost width = nb_bits as int;
    let mut bv = crate::expander::set::bv_from_elem(nb_bits, false);
    proof {
        assert(itemset@.take(0).to_set() =~= Set::<u8>::empty());
        assert(bv_view(bv) =~= bool_mask(itemset@.take(0).to_set(), width));
    }
    let mut i: usize = 0;
    while i < itemset.len()
        invariant
            i <= itemset@.len(),
            forall|k: int| 0 <= k < itemset@.len() ==> (#[trigger] itemset@[k] as int) < nb_bits,
            nb_bits <= 256,
            width == nb_bits as int,
            bv_view(bv) == bool_mask(itemset@.take(i as int).to_set(), width),
        decreases itemset@.len() - i,
    {
        let x = itemset[i];
        proof {
            assert(bv_view(bv).len() == width);
            let pre = itemset@.take(i as int);
            assert(itemset@.take(i + 1) =~= pre.push(x));
            pre.lemma_push_to_set_commute(x);
            assert(bool_mask(pre.to_set(), width).update(x as int, true) =~= bool_mask(
                pre.to_set().insert(x),
                width,
            ));
        }
        crate::expander::set::bv_set(&mut bv, x as usize, true);
        i = i + 1;
    }
    proof {
        assert(itemset@.take(itemset@.len() as int) =~= itemset@);
    }
    bv
}

/// `w` is the batch's key width: every item identifier lies below `w`, and
/// unless the batch holds no item at all, some item equals `w - 1`.
pub open spec fn required_width_of(batch: Seq<JsonSet>, w: int) -> bool {
    &&& forall|i: int, j: int|
        0 <= i < batch.len() && 0 <= j < batch[i].set@.len() ==> (
        #[trigger] batch[i].set@[j] as int) < w
    &&& w > 0 ==> exists|i: int, j: int|
        0 <= i < batch.len() && 0 <= j < batch[i].set@.len() && (
        #[trigger] batch[i].set@[j] as int) == w - 1
}

/// One more than the largest item identifier of the batch, or zero when the
/// batch holds no item at all; empty records contribute nothing.
pub fn get_number_of_required_bits(parsed_set: &Vec<JsonSet>) -> (r: usize)
    ensures
        r <= 256,
        required_width_of(parsed_set@, r as int),
{
    let mut width: usize = 0;
    let ghost mut wi: int = 0;
    let ghost mut wj: int = 0;
    let mut i: usize = 0;
    while i < parsed_set.len()
        invariant
            i <= parsed_set@.len(),
            width <= 256,
            forall|k: int, j: int|
                0 <= k < i && 0 <= j < parsed_set@[k].set@.len() ==> (
                #[trigger] parsed_set@[k].set@[j] as int) < width,
            width > 0 ==> 0 <= wi < parsed_set@.len() && 0 <= wj < parsed_set@[wi].set@.len() && (
            parsed_set@[wi].set@[wj] as int) == width - 1,
        decreases parsed_set@.len() - i,
    {
        let rec = &parsed_set[i];
        let mut j: usize = 0;
        while j < rec.set.len()
            invariant
                j <= rec.set@.len(),
                rec == parsed_set@[i as int],
                i < parsed_set@.len(),
                width <= 256,
                forall|t: int| 0 <= t < j ==> (#[trigger] rec.set@[t] as int) < width,
                forall|k: int, t: int|
                    0 <= k < i && 0 <= t < parsed_set@[k].set@.len() ==> (
                    #[trigger] parsed_set@[k].set@[t] as int) < width,
                width > 0 ==> 0 <= wi < parsed_set@.len() && 0 <= wj
                    < parsed_set@[wi].set@.len() && (parsed_set@[wi].set@[wj] as int) == width
                    - 1,
            decreases rec.set@.len() - j,
        {
            let v = rec.set[j];
            if (v as usize) >= width {
                width = (v as usize) + 1;
                proof {
                    wi = i as int;
                    wj = j as int;
                }
            }
            j = j + 1;
        }
        i = i + 1;
    }
    width
}

/// Expander whose keys are dynamic bit vectors sized to the batch.
pub struct BitVecExpander;

impl BitVecExpander {
    /// Expand a whole batch into one shared store: the result holds the
    /// downward closure of the batch, under keys of the batch's computed
    /// width.  An empty record records the empty key only.  Each record's
    /// items must be unique within that record.
    pub fn expand(parsed_set: Vec<JsonSet>) -> (store: BitvStore)
        requires
            all_records_unique(parsed_set@),
        ensures
            store.sinv(),
            store.width <= 256,
            required_width_of(parsed_set@, store.width as int),
            store.contents() == batch_closure(
                parsed_set@.map_values(|rec: JsonSet| rec.set@.to_set()),
            ),
            downward_closed(store.contents()),
    {
        let ghost batch = parsed_set@.map_values(|rec: JsonSet| rec.set@.to_set());
        let nb_bits = get_number_of_required_bits(&parsed_set);
        let mut works: Vec<VecWork> = Vec::new();
        let mut i: usize = 0;
        while i < parsed_set.len()
            invariant
                i <= parsed_set@.len(),
                works@.len() == i,
                all_records_unique(parsed_set@),
                batch == parsed_set@.map_values(|rec: JsonSet| rec.set@.to_set()),
                forall|k: int, j: int|
                    0 <= k < parsed_set@.len() && 0 <= j < parsed_set@[k].set@.len() ==> (
                    #[trigger] parsed_set@[k].set@[j] as int) < nb_bits,
                forall|k: int|
                    0 <= k < i ==> (#[trigger] works@[k]).inv() && works@[k].content() == batch[k]
                        && (forall|x: u8| works@[k].content().contains(x) ==> (x as int) < nb_bits),
            decreases parsed_set@.len() - i,
        {
            let rec = &parsed_set[i];
            let w = VecWork::from_items(&rec.set);
            proof {
                assert forall|x: u8| w.content().contains(x) implies (x as int) < nb_bits by {
                    let j = choose|j: int| 0 <= j < rec.set@.len() && rec.set@[j] == x;
                    assert(parsed_set@[i as int].set@[j] == x);
                }
            }
            works.push(w);
            i = i + 1;
        }
        let mut store = BitvStore::new(nb_bits);
        let ghost fresh = store;
        proof {
            assert(works@.map_values(|w: VecWork| w.content()) =~= batch);
        }
        expand_works(works, &mut store);
        proof {
            assert(Set::<Set<u8>>::empty().union(batch_closure(batch)) =~= batch_closure(batch));
            crate::expander::set::lemma_accepts_pins_width(store, fresh);
        }
        store
    }
}

} // verus!
