//! The two standard batches, run through every representation.

use itemset_expander::bitman::BitManipulatorExpander as OldBitManipulatorExpander;
use itemset_expander::bitvec::BitVecExploder;
use itemset_expander::digest::{FnvDigest, StdDigest};
use itemset_expander::expander::bitman::BitManipulatorExpander;
use itemset_expander::expander::bitvec::BitVecExpander;
use itemset_expander::expander::hashonly::HashOnlyExpander;
use itemset_expander::expander::vec::VecExpander;
use itemset_expander::expander::vechashonly::VecHashOnlyExpander;
use itemset_expander::hashonly::HashOnlyExploder;
use itemset_expander::JsonSet;

fn disjoint_batch() -> Vec<JsonSet> {
    vec![JsonSet { set: vec![1, 2, 3] }, JsonSet { set: vec![4, 5, 6] }]
}

fn overlapping_batch() -> Vec<JsonSet> {
    vec![JsonSet { set: vec![57, 58, 59, 60] }, JsonSet { set: vec![60, 99] }]
}

#[test]
fn bitman_test_1() {
    let parsed_set = disjoint_batch();
    assert_eq!(OldBitManipulatorExpander::explode(parsed_set).unwrap().len(), 14);
}

#[test]
fn bitman_test_2() {
    let parsed_set = overlapping_batch();
    assert_eq!(OldBitManipulatorExpander::explode(parsed_set).unwrap().len(), 17);
}

#[test]
fn bitvec_test_1() {
    let parsed_set = disjoint_batch();
    assert_eq!(BitVecExploder::explode(parsed_set).unwrap().len(), 14);
}

#[test]
fn bitvec_test_2() {
    let parsed_set = overlapping_batch();
    assert_eq!(BitVecExploder::explode(parsed_set).unwrap().len(), 17);
}

#[test]
fn bitman_test_1_std() {
    let parsed_set = disjoint_batch();
    assert_eq!(BitManipulatorExpander::expand(parsed_set).unwrap().len(), 14);
}

#[test]
fn bitman_test_2_std() {
    let parsed_set = overlapping_batch();
    assert_eq!(BitManipulatorExpander::expand(parsed_set).unwrap().len(), 17);
}

#[test]
fn bitvec_test_1_std() {
    let parsed_set = disjoint_batch();
    assert_eq!(BitVecExpander::expand(parsed_set).len(), 14);
}

#[test]
fn bitvec_test_2_std() {
    let parsed_set = overlapping_batch();
    assert_eq!(BitVecExpander::expand(parsed_set).len(), 17);
}

#[test]
fn hashonly_test_1() {
    let parsed_set = disjoint_batch();
    assert_eq!(HashOnlyExpander::expand(parsed_set).len(), 14);
}

#[test]
fn hashonly_test_2() {
    let parsed_set = overlapping_batch();
    assert_eq!(HashOnlyExpander::expand(parsed_set).len(), 17);
}

#[test]
fn vec_test_1_std() {
    let parsed_set = disjoint_batch();
    assert_eq!(VecExpander::expand(parsed_set).len(), 14);
}

#[test]
fn vec_test_2_std() {
    let parsed_set = overlapping_batch();
    assert_eq!(VecExpander::expand(parsed_set).len(), 17);
}

#[test]
fn vechashonly_test_1_std() {
    let parsed_set = disjoint_batch();
    assert_eq!(VecHashOnlyExpander::<StdDigest>::expand(parsed_set).len(), 14);
}

#[test]
fn vechashonly_test_2_std() {
    let parsed_set = overlapping_batch();
    assert_eq!(VecHashOnlyExpander::<StdDigest>::expand(parsed_set).len(), 17);
}

#[test]
fn vechashonly_test_1_fnv() {
    let parsed_set = disjoint_batch();
    assert_eq!(VecHashOnlyExpander::<FnvDigest>::expand(parsed_set).len(), 14);
}

#[test]
fn vechashonly_test_2_fnv() {
    let parsed_set = overlapping_batch();
    assert_eq!(VecHashOnlyExpander::<FnvDigest>::expand(parsed_set).len(), 17);
}

#[test]
fn hashonly_exploder_test_1() {
    let parsed_set = disjoint_batch();
    assert_eq!(HashOnlyExploder::explode(parsed_set).len(), 14);
}

#[test]
fn hashonly_exploder_test_2() {
    let parsed_set = overlapping_batch();
    assert_eq!(HashOnlyExploder::explode(parsed_set).len(), 17);
}
