//! Edge cases, error reporting, conversions and strategy selection.

use itemset_expander::bitman::{convert_set_to_u128, BitManipulatorExpander as OldBitManipulatorExpander};
use itemset_expander::bitvec::BitVecExploder;
use itemset_expander::driver::{select_strategy, Hashing, Representation};
use itemset_expander::expander::bitman::{convert_itemset as convert_itemset_mask, BitManipulatorExpander};
use itemset_expander::expander::bitvec::{convert_itemset, get_number_of_required_bits, BitVecExpander};
use itemset_expander::expander::hashonly::HashOnlyExpander;
use itemset_expander::expander::vec::VecExpander;
use itemset_expander::ExpandError;
use itemset_expander::JsonSet;

#[test]
fn boundary_single_item_vec() {
    let parsed_set = vec![JsonSet { set: vec![5] }];
    assert_eq!(VecExpander::expand(parsed_set).len(), 1);
}

#[test]
fn boundary_single_item_bitman() {
    let parsed_set = vec![JsonSet { set: vec![5] }];
    assert_eq!(BitManipulatorExpander::expand(parsed_set).unwrap().len(), 1);
}

#[test]
fn boundary_single_item_bitvec() {
    let parsed_set = vec![JsonSet { set: vec![5] }];
    assert_eq!(BitVecExpander::expand(parsed_set).len(), 1);
}

#[test]
fn boundary_single_item_hashonly() {
    let parsed_set = vec![JsonSet { set: vec![5] }];
    assert_eq!(HashOnlyExpander::expand(parsed_set).len(), 1);
}

#[test]
fn empty_batch_vec() {
    let parsed_set: Vec<JsonSet> = vec![];
    assert_eq!(VecExpander::expand(parsed_set).len(), 0);
}

#[test]
fn empty_itemset_records_empty_key() {
    let parsed_set = vec![JsonSet { set: vec![] }];
    assert_eq!(VecExpander::expand(parsed_set).len(), 1);
}

#[test]
fn idempotence_duplicate_input_vec() {
    let parsed_set = vec![
        JsonSet { set: vec![1, 2, 3] },
        JsonSet { set: vec![4, 5, 6] },
        JsonSet { set: vec![1, 2, 3] },
    ];
    assert_eq!(VecExpander::expand(parsed_set).len(), 14);
}

#[test]
fn idempotence_duplicate_input_bitman() {
    let parsed_set = vec![
        JsonSet { set: vec![57, 58, 59, 60] },
        JsonSet { set: vec![60, 99] },
        JsonSet { set: vec![60, 99] },
    ];
    assert_eq!(BitManipulatorExpander::expand(parsed_set).unwrap().len(), 17);
}

#[test]
fn representation_equivalence_counts() {
    let batch = || {
        vec![
            JsonSet { set: vec![9, 4, 7] },
            JsonSet { set: vec![4, 7] },
            JsonSet { set: vec![11, 12, 13, 14] },
        ]
    };
    let vec_count = VecExpander::expand(batch()).len();
    let mask_count = BitManipulatorExpander::expand(batch()).unwrap().len();
    let bitv_count = BitVecExpander::expand(batch()).len();
    let digest_count = HashOnlyExpander::expand(batch()).len();
    assert_eq!(vec_count, 22);
    assert_eq!(mask_count, vec_count);
    assert_eq!(bitv_count, vec_count);
    assert!(digest_count <= vec_count);
}

#[test]
fn bitman_rejects_zero() {
    let parsed_set = vec![JsonSet { set: vec![0, 3] }];
    let r = OldBitManipulatorExpander::explode(parsed_set);
    assert_eq!(r.err().unwrap(), ExpandError::ItemOutOfRange(0));
}

#[test]
fn bitman_rejects_large_item() {
    let parsed_set = vec![JsonSet { set: vec![129] }];
    let r = OldBitManipulatorExpander::explode(parsed_set);
    assert_eq!(r.err().unwrap(), ExpandError::ItemOutOfRange(129));
}

#[test]
fn bitman_expand_rejects_zero_and_129() {
    let r = BitManipulatorExpander::expand(vec![JsonSet { set: vec![0] }]);
    assert_eq!(r.err().unwrap(), ExpandError::ItemOutOfRange(0));
    let r = BitManipulatorExpander::expand(vec![JsonSet { set: vec![129] }]);
    assert_eq!(r.err().unwrap(), ExpandError::ItemOutOfRange(129));
}

#[test]
fn bitman_expand_accepts_item_128() {
    let parsed_set = vec![JsonSet { set: vec![128] }];
    assert_eq!(BitManipulatorExpander::expand(parsed_set).unwrap().len(), 1);
}

#[test]
fn bitvec_exploder_rejects_wide_item() {
    let parsed_set = vec![JsonSet { set: vec![3, 100] }];
    let r = BitVecExploder::explode(parsed_set);
    assert_eq!(r.err().unwrap(), ExpandError::ItemOutOfRange(100));
}

#[test]
fn convert_set_to_u128_packs_one_based_items() {
    assert_eq!(convert_set_to_u128(&[1, 2, 3]), 0b111);
    assert_eq!(convert_set_to_u128(&[128]), 1u128 << 127);
}

#[test]
fn convert_itemset_packs_one_based_items() {
    assert_eq!(convert_itemset_mask(&[1, 2]), 0b11);
    assert_eq!(convert_itemset_mask(&[128]), 1u128 << 127);
}

#[test]
fn convert_itemset_sets_expected_bits() {
    let bv = convert_itemset(&[1, 3], 5);
    let mut expected = bit_vec::BitVec::from_elem(5, false);
    expected.set(1, true);
    expected.set(3, true);
    assert_eq!(bv, expected);
}

#[test]
fn fixed_width_convert_matches_dynamic() {
    let fixed = itemset_expander::bitvec::convert_itemset(&[2, 99]);
    let dynamic = convert_itemset(&[2, 99], 100);
    assert_eq!(fixed, dynamic);
}

#[test]
fn required_bits_is_one_past_the_maximum() {
    let parsed_set = vec![JsonSet { set: vec![57, 58, 59, 60] }, JsonSet { set: vec![60, 99] }];
    assert_eq!(get_number_of_required_bits(&parsed_set), 100);
}

#[test]
fn required_bits_skips_empty_records() {
    assert_eq!(get_number_of_required_bits(&vec![]), 0);
    assert_eq!(get_number_of_required_bits(&vec![JsonSet { set: vec![] }]), 0);
    let mixed = vec![JsonSet { set: vec![] }, JsonSet { set: vec![2] }];
    assert_eq!(get_number_of_required_bits(&mixed), 3);
}

#[test]
fn bitvec_expand_handles_empty_records() {
    let parsed_set = vec![JsonSet { set: vec![] }, JsonSet { set: vec![1, 2] }];
    assert_eq!(BitVecExpander::expand(parsed_set).len(), 4);
    let empty_batch: Vec<JsonSet> = vec![];
    assert_eq!(BitVecExpander::expand(empty_batch).len(), 0);
    let one_empty = vec![JsonSet { set: vec![] }];
    assert_eq!(BitVecExpander::expand(one_empty).len(), 1);
}

#[test]
fn select_strategy_defaults() {
    let r = select_strategy(false, false, false, false, false, false, false, false);
    assert_eq!(r, Some((Representation::BitVector, Hashing::Fnv)));
}

#[test]
fn select_strategy_explicit_choices() {
    let r = select_strategy(true, false, false, false, false, false, true, false);
    assert_eq!(r, Some((Representation::ValueSequence, Hashing::Std)));
    let r = select_strategy(false, true, false, false, true, false, false, false);
    assert_eq!(r, Some((Representation::HashOnly, Hashing::Fnv)));
    let r = select_strategy(false, false, true, false, false, true, false, false);
    assert_eq!(r, Some((Representation::BitVector, Hashing::Fx)));
    let r = select_strategy(false, false, false, true, false, false, false, true);
    assert_eq!(r, Some((Representation::Bitmask, Hashing::AHash)));
}

#[test]
fn select_strategy_rejects_conflicts() {
    let r = select_strategy(true, true, false, false, false, false, false, false);
    assert_eq!(r, None);
    let r = select_strategy(false, false, false, false, false, true, true, false);
    assert_eq!(r, None);
}

#[test]
fn mask_store_items_lists_recorded_itemsets() {
    let parsed_set = vec![JsonSet { set: vec![1, 2, 3] }];
    let store = BitManipulatorExpander::expand(parsed_set).unwrap();
    let lists = store.items();
    assert_eq!(lists.len(), 7);
    assert!(lists.contains(&vec![1, 2, 3]));
    assert!(lists.contains(&vec![2]));
    assert!(lists.contains(&vec![1, 3]));
    assert!(!lists.iter().any(|l| l.is_empty()));
}
