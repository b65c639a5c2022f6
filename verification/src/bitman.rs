//! Bitmask expander over one-based item identifiers.
//!
//! Item `i` (valid range 1 to 128) maps to bit `i - 1` of a `u128` key.  An
//! out-of-range item is reported as an error before any expansion starts.

use vstd::prelude::*;

use crate::bitmask::{bits_of, lemma_set_bit, BitmaskWork, MaskStore};
use crate::engine::{expand_works, Store, Workset};
use crate::model::{batch_closure, downward_closed};
use crate::{ExpandError, JsonSet};

verus! {

broadcast use vstd::set::group_set_axioms, vstd::seq::group_seq_axioms,
    vstd::seq_lib::group_seq_lib_default, vstd::set_lib::group_set_lib_default;

/// Whether every item of every record lies in the representable range.
pub open spec fn all_one_based(batch: Seq<JsonSet>) -> bool {
    forall|i: int, j: int|
        0 <= i < batch.len() && 0 <= j < batch[i].set@.len() ==> 1 <= #[trigger] batch[i].set@[j]
            <= 128
}

/// A value of the batch that is outside the representable range.
pub open spec fn is_offending_one_based(batch: Seq<JsonSet>, v: u8) -> bool {
    exists|i: int, j: int|
        0 <= i < batch.len() && 0 <= j < batch[i].set@.len() && #[trigger] batch[i].set@[j] == v
            && !(1 <= v <= 128)
}

/// Pack a one-based itemset into its bitmask key: item `v` sets bit `v - 1`.
pub fn convert_set_to_u128(sol: &[u8]) -> (r: u128)
    requires
        forall|i: int| 0 <= i < sol@.len() ==> 1 <= #[trigger] sol@[i] <= 128,
    ensures
        bits_of(r) == sol@.to_set(),
{
    let mut sol_u64: u128 = 0;
    let mut i: usize = 0;
    proof {
        assert(sol@.take(0) =~= Seq::<u8>::empty());
        assert(sol@.take(0).to_set() =~= Set::<u8>::empty());
        assert(bits_of(0) =~= Set::<u8>::empty()) by {
            assert(forall|t: u128| #![trigger (0u128 >> t)] (0u128 >> t) & 1 == 0)
                by (bit_vector);
        }
    }
    while i < sol.len()
        invariant
            i <= sol@.len(),
            forall|k: int| 0 <= k < sol@.len() ==> 1 <= #[trigger] sol@[k] <= 128,
            bits_of(sol_u64) == sol@.take(i as int).to_set(),
        decreases sol@.len() - i,
    {
        let v = sol[i];
        proof {
            lemma_set_bit(sol_u64, v);
            let pre = sol@.take(i as int);
            assert(sol@.take(i + 1) =~= pre.push(v));
            pre.lemma_push_to_set_commute(v);
        }
        sol_u64 = sol_u64 | (1u128 << ((v - 1) as u128));
        i = i + 1;
    }
    proof {
        assert(sol@.take(sol@.len() as int) =~= sol@);
    }
    sol_u64
}

/// Expander whose keys are packed bitmasks of one-based items.
pub struct BitManipulatorExpander;

impl BitManipulatorExpander {
    /// Expand a whole batch into one shared store.
    ///
    /// Succeeds exactly when every item of every record lies in 1 to 128; the
    /// resulting store holds the downward closure of the batch.  Otherwise an
    /// offending value is reported and no expansion is performed.
    pub fn explode(parsed_set: Vec<JsonSet>) -> (r: Result<MaskStore, ExpandError>)
        ensures
            match r {
                Ok(store) => {
                    &&& all_one_based(parsed_set@)
                    &&& store.sinv()
                    &&& store.contents() == batch_closure(
                        parsed_set@.map_values(|rec: JsonSet| rec.set@.to_set()),
                    )
                    &&& downward_closed(store.contents())
                },
                Err(e) => {
                    &&& !all_one_based(parsed_set@)
                    &&& e matches ExpandError::ItemOutOfRange(v)
                        && is_offending_one_based(parsed_set@, v)
                },
            },
    {
        let ghost batch = parsed_set@.map_values(|rec: JsonSet| rec.set@.to_set());
        let mut works: Vec<BitmaskWork> = Vec::new();
        let mut i: usize = 0;
        while i < parsed_set.len()
            invariant
                i <= parsed_set@.len(),
                works@.len() == i,
                batch == parsed_set@.map_values(|rec: JsonSet| rec.set@.to_set()),
                forall|k: int, j: int|
                    0 <= k < i && 0 <= j < parsed_set@[k].set@.len() ==> 1 <= #[trigger] parsed_set@[k].set@[j] <= 128,
                forall|k: int|
                    0 <= k < i ==> (#[trigger] works@[k]).inv() && works@[k].content() == batch[k],
            decreases parsed_set@.len() - i,
        {
            let rec = &parsed_set[i];
            let mut j: usize = 0;
            while j < rec.set.len()
                invariant
                    j <= rec.set@.len(),
                    rec == parsed_set@[i as int],
                    i < parsed_set@.len(),
                    forall|t: int| 0 <= t < j ==> 1 <= #[trigger] rec.set@[t] <= 128,
                decreases rec.set@.len() - j,
            {
                let v = rec.set[j];
                if v < 1 || v > 128 {
                    proof {
                        assert(parsed_set@[i as int].set@[j as int] == v);
                        assert(is_offending_one_based(parsed_set@, v));
                    }
                    return Err(ExpandError::ItemOutOfRange(v));
                }
                j = j + 1;
            }
            let mask = convert_set_to_u128(rec.set.as_slice());
            works.push(BitmaskWork::new(mask));
            i = i + 1;
        }
        let mut store = MaskStore::new();
        proof {
            assert(works@.map_values(|w: BitmaskWork| w.content()) =~= batch);
        }
        expand_works(works, &mut store);
        proof {
            assert(Set::<Set<u8>>::empty().union(batch_closure(batch)) =~= batch_closure(batch));
        }
        Ok(store)
    }
}

} // verus!
