//! Ordered value-sequence representation of a working itemset.
//!
//! The items are kept as a strictly increasing `Vec<u8>`, the canonical
//! ordering of an itemset's content.  Under that invariant the sequence is
//! determined by the content, so removal followed by restoration reproduces
//! the original sequence exactly, whichever position was touched.

use vstd::prelude::*;

use crate::engine::Workset;

verus! {

broadcast use vstd::set::group_set_axioms, vstd::seq::group_seq_axioms,
    vstd::seq_lib::group_seq_lib_default, vstd::set_lib::group_set_lib_default;

/// Strictly increasing: the canonical order of an itemset's items.
pub open spec fn strictly_sorted(s: Seq<u8>) -> bool {
    forall|i: int, j: int| 0 <= i < j < s.len() ==> s[i] < s[j]
}

pub proof fn lemma_strictly_sorted_no_dup(s: Seq<u8>)
    requires
        strictly_sorted(s),
    ensures
        s.no_duplicates(),
{
    assert forall|i: int, j: int|
        0 <= i < s.len() && 0 <= j < s.len() && i != j implies s[i] != s[j] by {
        if i < j {
            assert(s[i] < s[j]);
        } else {
            assert(s[j] < s[i]);
        }
    }
}

/// Two strictly sorted sequences with the same content are the same
/// sequence: the canonical order is unique.
pub proof fn lemma_sorted_unique_by_content(s1: Seq<u8>, s2: Seq<u8>)
    requires
        strictly_sorted(s1),
        strictly_sorted(s2),
        s1.to_set() == s2.to_set(),
    ensures
        s1 == s2,
    decreases s1.len(),
{
    lemma_strictly_sorted_no_dup(s1);
    lemma_strictly_sorted_no_dup(s2);
    s1.unique_seq_to_set();
    s2.unique_seq_to_set();
    if s1.len() == 0 {
        assert(s1 =~= s2);
    } else {
        // both heads are the unique minimum of the shared content
        assert(s1.contains(s1[0]));
        assert(s2.to_set().contains(s1[0]));
        assert(s2.contains(s2[0]));
        assert(s1.to_set().contains(s2[0]));
        let i1 = choose|i: int| 0 <= i < s1.len() && s1[i] == s2[0];
        let i2 = choose|i: int| 0 <= i < s2.len() && s2[i] == s1[0];
        assert(s1[0] <= s1[i1] && s2[0] <= s2[i2]);
        assert(s1[0] == s2[0]);
        let t1 = s1.drop_first();
        let t2 = s2.drop_first();
        assert(strictly_sorted(t1) && strictly_sorted(t2));
        assert(t1.to_set() =~= t2.to_set()) by {
            assert forall|y: u8| t1.to_set().contains(y) implies t2.to_set().contains(y) by {
                let j = choose|j: int| 0 <= j < t1.len() && t1[j] == y;
                assert(s1[j + 1] == y);
                assert(y > s1[0]);
                assert(s1.contains(y));
                assert(s1.to_set().contains(y));
                assert(s2.to_set().contains(y));
                assert(s2.contains(y));
                let k = choose|k: int| 0 <= k < s2.len() && s2[k] == y;
                assert(k != 0);
                assert(t2[k - 1] == y);
                assert(t2.contains(y));
            }
            assert forall|y: u8| t2.to_set().contains(y) implies t1.to_set().contains(y) by {
                let j = choose|j: int| 0 <= j < t2.len() && t2[j] == y;
                assert(s2[j + 1] == y);
                assert(y > s2[0]);
                assert(s2.contains(y));
                assert(s2.to_set().contains(y));
                assert(s1.to_set().contains(y));
                assert(s1.contains(y));
                let k = choose|k: int| 0 <= k < s1.len() && s1[k] == y;
                assert(k != 0);
                assert(t1[k - 1] == y);
                assert(t1.contains(y));
            }
        }
        lemma_sorted_unique_by_content(t1, t2);
        assert(s1.len() == s2.len());
        assert forall|i: int| 0 <= i < s1.len() implies s1[i] == s2[i] by {
            if i > 0 {
                assert(t1[i - 1] == s1[i]);
                assert(t2[i - 1] == s2[i]);
            }
        }
        assert(s1 =~= s2);
    }
}

/// A working itemset kept as a strictly increasing vector of items.
pub struct VecWork {
    pub items: Vec<u8>,
}

impl VecWork {
    /// The empty working itemset.
    pub fn new_empty() -> (w: VecWork)
        ensures
            w.inv(),
            w.content() == Set::<u8>::empty(),
            w.items@ == Seq::<u8>::empty(),
    {
        let w = VecWork { items: Vec::new() };
        proof {
            assert(w.items@.to_set() =~= Set::<u8>::empty());
        }
        w
    }

    /// An exact copy of the item sequence, for use as a store key.
    pub fn clone_items(&self) -> (v: Vec<u8>)
        ensures
            v@ == self.items@,
    {
        let mut v: Vec<u8> = Vec::new();
        let mut i: usize = 0;
        while i < self.items.len()
            invariant
                i <= self.items@.len(),
                v@ == self.items@.take(i as int),
            decreases self.items@.len() - i,
        {
            v.push(self.items[i]);
            proof {
                assert(v@ =~= self.items@.take(i + 1));
            }
            i = i + 1;
        }
        proof {
            assert(v@ =~= self.items@);
        }
        v
    }

    /// Canonicalize a duplicate-free itemset: the result holds the same
    /// content in strictly increasing order.
    pub fn from_items(items: &Vec<u8>) -> (w: VecWork)
        requires
            items@.no_duplicates(),
        ensures
            w.inv(),
            w.content() == items@.to_set(),
    {
        let mut w = VecWork::new_empty();
        let mut i: usize = 0;
        proof {
            assert(items@.take(0).to_set() =~= Set::<u8>::empty());
        }
        while i < items.len()
            invariant
                i <= items@.len(),
                items@.no_duplicates(),
                w.inv(),
                w.content() == items@.take(i as int).to_set(),
            decreases items@.len() - i,
        {
            let x = items[i];
            proof {
                let pre = items@.take(i as int);
                assert(!pre.contains(x)) by {
                    if pre.contains(x) {
                        let j = choose|j: int| 0 <= j < pre.len() && pre[j] == x;
                        assert(items@[j] == items@[i as int]);
                    }
                }
                assert(!w.content().contains(x));
                assert(items@.take(i + 1) =~= pre.push(x));
                pre.lemma_push_to_set_commute(x);
            }
            w.restore_item(x);
            i = i + 1;
        }
        proof {
            assert(items@.take(items@.len() as int) =~= items@);
        }
        w
    }
}

impl Workset for VecWork {
    open spec fn inv(&self) -> bool {
        strictly_sorted(self.items@)
    }

    open spec fn content(&self) -> Set<u8> {
        self.items@.to_set()
    }

    open spec fn admits(&self, x: u8) -> bool {
        true
    }

    proof fn lemma_content_admitted(&self) {
    }

    proof fn lemma_content_finite(&self) {
    }

    fn size(&self) -> (n: usize) {
        proof {
            lemma_strictly_sorted_no_dup(self.items@);
            self.items@.unique_seq_to_set();
        }
        self.items.len()
    }

    fn elements(&self) -> (v: Vec<u8>) {
        let mut v: Vec<u8> = Vec::new();
        let mut i: usize = 0;
        while i < self.items.len()
            invariant
                i <= self.items@.len(),
                v@ == self.items@.take(i as int),
            decreases self.items@.len() - i,
        {
            v.push(self.items[i]);
            proof {
                assert(v@ =~= self.items@.take(i + 1));
            }
            i = i + 1;
        }
        proof {
            assert(v@ =~= self.items@);
            lemma_strictly_sorted_no_dup(self.items@);
        }
        v
    }

    fn remove_item(&mut self, x: u8) {
        let ghost s0 = self.items@;
        proof {
            lemma_strictly_sorted_no_dup(s0);
        }
        let mut idx: usize = 0;
        while idx < self.items.len() && self.items[idx] != x
            invariant
                idx <= s0.len(),
                self.items@ == s0,
                s0.contains(x),
                forall|t: int| 0 <= t < idx ==> s0[t] != x,
            decreases s0.len() - idx,
        {
            idx = idx + 1;
        }
        proof {
            let k = choose|k: int| 0 <= k < s0.len() && s0[k] == x;
            assert(idx < s0.len());
        }
        let ghost gidx = idx as int;
        self.items.remove(idx);
        proof {
            let s1 = self.items@;
            assert(s1 == s0.remove(gidx));
            assert(s0[gidx] == x);
            assert forall|j: int| 0 <= j < s1.len() implies s1[j] == (if j < gidx {
                s0[j]
            } else {
                s0[j + 1]
            }) by {}
            assert forall|p: int, q: int| 0 <= p < q < s1.len() implies s1[p] < s1[q] by {
                let p0 = if p < gidx { p } else { p + 1 };
                let q0 = if q < gidx { q } else { q + 1 };
                assert(s0[p0] < s0[q0]);
            }
            assert forall|y: u8| s1.to_set().contains(y) == (s0.to_set().contains(y) && y
                != x) by {
                if s1.contains(y) {
                    let j = choose|j: int| 0 <= j < s1.len() && s1[j] == y;
                    let j0 = if j < gidx { j } else { j + 1 };
                    assert(s0[j0] == y);
                    assert(j0 != gidx);
                    if y == x {
                        assert(s0[j0] == s0[gidx]);
                        assert(false);
                    }
                }
                if s0.contains(y) && y != x {
                    let m = choose|m: int| 0 <= m < s0.len() && s0[m] == y;
                    assert(m != gidx);
                    if m < gidx {
                        assert(s1[m] == y);
                    } else {
                        assert(s1[m - 1] == y);
                    }
                    assert(s1.contains(y));
                }
            }
            assert(s1.to_set() =~= s0.to_set().remove(x));
        }
    }

    fn restore_item(&mut self, x: u8) {
        let ghost s0 = self.items@;
        let mut idx: usize = 0;
        while idx < self.items.len() && self.items[idx] < x
            invariant
                idx <= s0.len(),
                self.items@ == s0,
                forall|t: int| 0 <= t < idx ==> s0[t] < x,
            decreases s0.len() - idx,
        {
            idx = idx + 1;
        }
        proof {
            if idx < s0.len() {
                assert(s0.contains(s0[idx as int]));
                assert(s0[idx as int] != x);
                assert(s0[idx as int] > x);
            }
        }
        let ghost gidx = idx as int;
        self.items.insert(idx, x);
        proof {
            let s1 = self.items@;
            assert(s1 == s0.insert(gidx, x));
            assert forall|j: int| 0 <= j < s1.len() implies s1[j] == (if j < gidx {
                s0[j]
            } else if j == gidx {
                x
            } else {
                s0[j - 1]
            }) by {}
            assert forall|p: int, q: int| 0 <= p < q < s1.len() implies s1[p] < s1[q] by {
                if p < gidx && q < gidx {
                    assert(s0[p] < s0[q]);
                } else if p < gidx && q == gidx {
                    assert(s0[p] < x);
                } else if p < gidx && q > gidx {
                    assert(s0[p] < s0[q - 1] || p == q - 1);
                    assert(s0[q - 1] >= s0[gidx]);
                } else if p == gidx {
                    assert(s0[q - 1] >= s0[gidx]);
                } else {
                    assert(s0[p - 1] < s0[q - 1]);
                }
            }
            assert forall|y: u8| s1.to_set().contains(y) == (s0.to_set().contains(y) || y
                == x) by {
                if s1.contains(y) {
                    let j = choose|j: int| 0 <= j < s1.len() && s1[j] == y;
                    if j != gidx {
                        let j0 = if j < gidx { j } else { j - 1 };
                        assert(s0[j0] == y);
                        assert(s0.contains(y));
                    }
                }
                if s0.contains(y) {
                    let m = choose|m: int| 0 <= m < s0.len() && s0[m] == y;
                    if m < gidx {
                        assert(s1[m] == y);
                    } else {
                        assert(s1[m + 1] == y);
                    }
                    assert(s1.contains(y));
                }
                if y == x {
                    assert(s1[gidx] == x);
                    assert(s1.contains(x));
                }
            }
            assert(s1.to_set() =~= s0.to_set().insert(x));
        }
    }
}

} // verus!
