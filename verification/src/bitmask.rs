//! Packed fixed-width bitmask representation.
//!
//! An itemset whose items lie in 1 to 128 is encoded as one `u128`: item `i`
//! (one-based) maps to bit `i - 1`.  Removing and restoring an element are
//! single bit operations, and the canonical key is the mask itself.  The
//! deduplicating store is a `std::collections::HashSet<u128>`.

use vstd::prelude::*;

use crate::engine::{Store, Workset};
use crate::model::lemma_map_len_injective;

verus! {

broadcast use vstd::set::group_set_axioms, vstd::seq::group_seq_axioms,
    vstd::seq_lib::group_seq_lib_default, vstd::set_lib::group_set_lib_default,
    vstd::std_specs::hash::group_hash_axioms;

/// The itemset encoded by the mask `m`: item `x` (one-based) is present
/// exactly when bit `x - 1` of `m` is set.
pub open spec fn bits_of(m: u128) -> Set<u8> {
    Set::new(|x: u8| 1 <= x <= 128 && (m >> ((x - 1) as u128)) & 1 == 1)
}

/// The encoded items whose value is at most `k`.
pub open spec fn items_below(m: u128, k: int) -> Set<u8> {
    Set::new(|x: u8| 1 <= x as int <= k && (m >> ((x - 1) as u128)) & 1 == 1)
}

pub proof fn lemma_items_below_full(m: u128)
    ensures
        items_below(m, 128) == bits_of(m),
{
    assert(items_below(m, 128) =~= bits_of(m));
}

/// Scanning the bit positions one by one grows `items_below` one step at a
/// time: bit `k` stands for item `k + 1`.
pub proof fn lemma_items_below_step(m: u128, k: int)
    requires
        0 <= k < 128,
    ensures
        (m >> (k as u128)) & 1 == 1 ==> items_below(m, k + 1) == items_below(m, k).insert(
            (k + 1) as u8,
        ),
        (m >> (k as u128)) & 1 != 1 ==> items_below(m, k + 1) == items_below(m, k),
        !items_below(m, k).contains((k + 1) as u8),
{
    assert((((k + 1) as u8) - 1) as u128 == k as u128);
    if (m >> (k as u128)) & 1 == 1 {
        assert(items_below(m, k + 1) =~= items_below(m, k).insert((k + 1) as u8));
    } else {
        assert(items_below(m, k + 1) =~= items_below(m, k));
    }
}

pub proof fn lemma_items_below_finite(m: u128, k: int)
    requires
        0 <= k <= 128,
    ensures
        items_below(m, k).finite(),
        items_below(m, k).len() <= k,
    decreases k,
{
    if k == 0 {
        assert(items_below(m, 0) =~= Set::empty());
    } else {
        lemma_items_below_finite(m, k - 1);
        lemma_items_below_step(m, k - 1);
    }
}

pub proof fn lemma_bits_of_finite(m: u128)
    ensures
        bits_of(m).finite(),
        bits_of(m).len() <= 128,
{
    lemma_items_below_finite(m, 128);
    lemma_items_below_full(m);
}

/// If two masks agree on every bit position below 128 then they agree on the
/// whole suffix starting at position `128 - k`.
proof fn lemma_suffix_eq(a: u128, b: u128, k: u128)
    requires
        0 < k <= 128,
        forall|y: u128| #![trigger a >> y] y < 128 ==> ((a >> y) & 1) == ((b >> y) & 1),
    ensures
        a >> ((128 - k) as u128) == b >> ((128 - k) as u128),
    decreases k,
{
    let s = (128 - k) as u128;
    assert(((a >> s) & 1) == ((b >> s) & 1));
    if k == 1 {
        assert(a >> s == (a >> s) & 1) by (bit_vector)
            requires
                s == 127,
        ;
        assert(b >> s == (b >> s) & 1) by (bit_vector)
            requires
                s == 127,
        ;
    } else {
        lemma_suffix_eq(a, b, (k - 1) as u128);
        assert(a >> s == (((a >> (s + 1)) << 1) | ((a >> s) & 1))) by (bit_vector)
            requires
                s < 127,
        ;
        assert(b >> s == (((b >> (s + 1)) << 1) | ((b >> s) & 1))) by (bit_vector)
            requires
                s < 127,
        ;
    }
}

/// Two masks encoding the same itemset are the same mask.
pub proof fn lemma_bits_of_injective(a: u128, b: u128)
    requires
        bits_of(a) == bits_of(b),
    ensures
        a == b,
{
    assert(forall|t: u128| #![trigger t & 1] t & 1 == 0 || t & 1 == 1) by (bit_vector);
    assert forall|y: u128| #![trigger a >> y] y < 128 implies ((a >> y) & 1) == ((b >> y) & 1) by {
        let yb = (y + 1) as u8;
        assert(1 <= yb <= 128 && ((yb - 1) as u128) == y);
        assert(bits_of(a).contains(yb) == ((a >> y) & 1 == 1));
        assert(bits_of(b).contains(yb) == ((b >> y) & 1 == 1));
        assert(bits_of(a).contains(yb) == bits_of(b).contains(yb));
        assert((a >> y) & 1 == 0 || (a >> y) & 1 == 1);
        assert((b >> y) & 1 == 0 || (b >> y) & 1 == 1);
    }
    lemma_suffix_eq(a, b, 128u128);
    assert(a >> 0 == a) by (bit_vector);
    assert(b >> 0 == b) by (bit_vector);
}

/// Clearing bit `x - 1` removes item `x` from the encoded itemset.
pub proof fn lemma_clear_bit(m: u128, x: u8)
    requires
        1 <= x <= 128,
    ensures
        bits_of(m & !(1u128 << ((x - 1) as u128))) == bits_of(m).remove(x),
{
    let r = m & !(1u128 << ((x - 1) as u128));
    assert forall|y: u8| bits_of(r).contains(y) == bits_of(m).remove(x).contains(y) by {
        if 1 <= y <= 128 {
            let xu = (x - 1) as u128;
            let yu = (y - 1) as u128;
            assert(y != x ==> yu != xu);
            assert((((m & !(1u128 << xu)) >> yu) & 1 == 1) == ((m >> yu) & 1 == 1 && yu != xu))
                by (bit_vector)
                requires
                    xu < 128 && yu < 128,
            ;
            assert(r == m & !(1u128 << xu));
        }
    }
    assert(bits_of(r) =~= bits_of(m).remove(x));
}

/// Setting bit `x - 1` adds item `x` to the encoded itemset.
pub proof fn lemma_set_bit(m: u128, x: u8)
    requires
        1 <= x <= 128,
    ensures
        bits_of(m | (1u128 << ((x - 1) as u128))) == bits_of(m).insert(x),
{
    let r = m | (1u128 << ((x - 1) as u128));
    assert forall|y: u8| bits_of(r).contains(y) == bits_of(m).insert(x).contains(y) by {
        if 1 <= y <= 128 {
            let xu = (x - 1) as u128;
            let yu = (y - 1) as u128;
            assert(y != x ==> yu != xu);
            assert((((m | (1u128 << xu)) >> yu) & 1 == 1) == ((m >> yu) & 1 == 1 || yu == xu))
                by (bit_vector)
                requires
                    xu < 128 && yu < 128,
            ;
            assert(r == m | (1u128 << xu));
        }
    }
    assert(bits_of(r) =~= bits_of(m).insert(x));
}

/// A working itemset packed into one `u128`.
pub struct BitmaskWork {
    pub mask: u128,
}

impl BitmaskWork {
    pub fn new(mask: u128) -> (w: BitmaskWork)
        ensures
            w.inv(),
            w.content() == bits_of(mask),
            w.mask == mask,
    {
        BitmaskWork { mask }
    }
}

impl Workset for BitmaskWork {
    open spec fn inv(&self) -> bool {
        true
    }

    open spec fn content(&self) -> Set<u8> {
        bits_of(self.mask)
    }

    open spec fn admits(&self, x: u8) -> bool {
        1 <= x <= 128
    }

    proof fn lemma_content_admitted(&self) {
    }

    proof fn lemma_content_finite(&self) {
        lemma_bits_of_finite(self.mask);
    }

    fn size(&self) -> (n: usize) {
        let m = self.mask;
        let mut n: usize = 0;
        let mut i: usize = 0;
        proof {
            assert(items_below(m, 0) =~= Set::empty());
        }
        while i < 128
            invariant
                i <= 128,
                n <= i,
                items_below(m, i as int).finite(),
                n == items_below(m, i as int).len(),
            decreases 128 - i,
        {
            proof {
                lemma_items_below_step(m, i as int);
            }
            if (m >> (i as u128)) & 1 == 1 {
                n = n + 1;
            }
            i = i + 1;
        }
        proof {
            lemma_items_below_full(m);
        }
        n
    }

    fn elements(&self) -> (v: Vec<u8>) {
        let m = self.mask;
        let mut v: Vec<u8> = Vec::new();
        let mut i: usize = 0;
        proof {
            assert(items_below(m, 0) =~= Set::empty());
            assert(v@.to_set() =~= Set::empty());
        }
        while i < 128
            invariant
                i <= 128,
                v@.len() <= i,
                v@.no_duplicates(),
                v@.to_set() == items_below(m, i as int),
            decreases 128 - i,
        {
            proof {
                lemma_items_below_step(m, i as int);
            }
            if (m >> (i as u128)) & 1 == 1 {
                let ghost pre = v@;
                v.push((i + 1) as u8);
                proof {
                    pre.lemma_push_to_set_commute((i + 1) as u8);
                    assert(!pre.contains((i + 1) as u8)) by {
                        assert(!pre.to_set().contains((i + 1) as u8));
                    }
                    assert forall|p: int, q: int| 0 <= p < q < v@.len() implies v@[p] != v@[q] by {
                        if q < v@.len() - 1 {
                            assert(pre[p] != pre[q]);
                        } else {
                            assert(pre.contains(pre[p]));
                        }
                    }
                    assert(v@.to_set() =~= pre.to_set().insert((i + 1) as u8));
                }
            }
            i = i + 1;
        }
        proof {
            lemma_items_below_full(m);
        }
        v
    }

    fn remove_item(&mut self, x: u8) {
        proof {
            lemma_clear_bit(self.mask, x);
        }
        self.mask = self.mask & !(1u128 << ((x - 1) as u128));
    }

    fn restore_item(&mut self, x: u8) {
        proof {
            lemma_set_bit(self.mask, x);
        }
        self.mask = self.mask | (1u128 << ((x - 1) as u128));
    }
}

/// The deduplicating store for bitmask keys: a hash set of masks, viewed as
/// the set of itemset contents they encode.
pub struct MaskStore {
    pub inner: std::collections::HashSet<u128>,
}

impl MaskStore {
    pub fn new() -> (s: MaskStore)
        ensures
            s.sinv(),
            s.contents() == Set::<Set<u8>>::empty(),
    {
        let inner = std::collections::HashSet::<u128>::new();
        proof {
            assert(inner@.map(|m: u128| bits_of(m)) =~= Set::<Set<u8>>::empty());
        }
        MaskStore { inner }
    }

    /// Number of distinct itemsets recorded.
    pub fn len(&self) -> (n: usize)
        requires
            self.sinv(),
        ensures
            n == self.contents().len(),
    {
        proof {
            lemma_mask_contents_len(self.inner@);
        }
        self.inner.len()
    }
}

impl MaskStore {
    /// The recorded itemsets, one item list per recorded itemset, in no
    /// guaranteed order: one pass over the store is sufficient.
    pub fn items(&self) -> (r: Vec<Vec<u8>>)
        requires
            self.sinv(),
        ensures
            r@.len() == self.contents().len(),
            forall|k: int|
                0 <= k < r@.len() ==> self.contents().contains((#[trigger] r@[k])@.to_set()),
            forall|c: Set<u8>|
                #[trigger] self.contents().contains(c) ==> exists|k: int|
                    0 <= k < r@.len() && r@[k]@.to_set() == c,
    {
        let mut out: Vec<Vec<u8>> = Vec::new();
        let ghost mut seen: Seq<u128> = Seq::empty();
        for m in it: self.inner.iter()
            invariant
                self.sinv(),
                it.seq().unref().to_set() == self.inner@,
                it.seq().unref().no_duplicates(),
                it.seq().len() == self.inner@.len(),
                seen == it.seq().unref().take(it.index() as int),
                seen.len() == it.index(),
                seen.no_duplicates(),
                seen.to_set().subset_of(self.inner@),
                out@.len() == seen.len(),
                forall|k: int|
                    0 <= k < out@.len() ==> (#[trigger] out@[k])@.to_set() == bits_of(seen[k]),
        {
            let w = BitmaskWork::new(*m);
            out.push(w.elements());
            proof {
                let idx = it.index() as int;
                let unref = it.seq().unref();
                assert(*m == unref[idx]);
                assert(unref.take(idx + 1) =~= unref.take(idx).push(unref[idx]));
                assert(!seen.contains(*m)) by {
                    if seen.contains(*m) {
                        let j = choose|j: int| 0 <= j < seen.len() && seen[j] == *m;
                        assert(unref[j] == unref[idx]);
                    }
                }
                assert(unref.contains(unref[idx]));
                assert(unref.to_set().contains(*m));
                let pre = seen;
                seen = pre.push(*m);
                assert(seen.no_duplicates()) by {
                    assert forall|p: int, q: int|
                        0 <= p < seen.len() && 0 <= q < seen.len() && p != q implies seen[p]
                        != seen[q] by {
                        if p < pre.len() && q < pre.len() {
                            assert(pre[p] != pre[q]);
                        } else if p < pre.len() {
                            assert(pre.contains(pre[p]));
                        } else {
                            assert(pre.contains(pre[q]));
                        }
                    }
                }
                pre.lemma_push_to_set_commute(*m);
                assert(seen.to_set() == pre.to_set().insert(*m));
            }
        }
        proof {
            assert(seen.len() == self.inner@.len());
            seen.unique_seq_to_set();
            assert forall|m: u128| self.inner@.contains(m) implies seen.to_set().contains(m) by {
                if !seen.to_set().contains(m) {
                    assert(seen.to_set().subset_of(self.inner@.remove(m)));
                    vstd::set_lib::lemma_len_subset(seen.to_set(), self.inner@.remove(m));
                }
            }
            assert(seen.to_set() =~= self.inner@);
            lemma_mask_contents_len(self.inner@);
            assert forall|c: Set<u8>| #[trigger] self.contents().contains(c) implies exists|k: int|
                0 <= k < out@.len() && out@[k]@.to_set() == c by {
                let m = choose|m: u128| self.inner@.contains(m) && c == bits_of(m);
                assert(seen.to_set().contains(m));
                assert(seen.contains(m));
                let k = choose|k: int| 0 <= k < seen.len() && seen[k] == m;
                assert(out@[k]@.to_set() == c);
            }
            assert forall|k: int| 0 <= k < out@.len() implies self.contents().contains(
                (#[trigger] out@[k])@.to_set(),
            ) by {
                assert(seen.to_set().contains(seen[k]));
                assert(self.inner@.contains(seen[k]));
                assert(self.contents().contains(bits_of(seen[k])));
            }
        }
        out
    }
}

/// The recorded contents and the recorded masks are in bijection, so the
/// store's size is the number of distinct recorded itemsets.
pub proof fn lemma_mask_contents_len(masks: Set<u128>)
    requires
        masks.finite(),
    ensures
        masks.map(|m: u128| bits_of(m)).finite(),
        masks.map(|m: u128| bits_of(m)).len() == masks.len(),
{
    assert forall|a: u128, b: u128|
        masks.contains(a) && masks.contains(b) && #[trigger] bits_of(a) == #[trigger] bits_of(b)
        implies a == b by {
        lemma_bits_of_injective(a, b);
    }
    lemma_map_len_injective(masks, |m: u128| bits_of(m));
}

impl Store<BitmaskWork> for MaskStore {
    open spec fn sinv(&self) -> bool {
        self.inner@.finite()
    }

    open spec fn contents(&self) -> Set<Set<u8>> {
        self.inner@.map(|m: u128| bits_of(m))
    }

    open spec fn accepts(&self, c: Set<u8>) -> bool {
        true
    }

    proof fn lemma_accepts_subset(&self, c1: Set<u8>, c2: Set<u8>) {
    }

    fn contains_key(&self, w: &BitmaskWork) -> (b: bool) {
        let b = self.inner.contains(&w.mask);
        proof {
            if self.contents().contains(bits_of(w.mask)) {
                let m = choose|m: u128| self.inner@.contains(m) && bits_of(w.mask) == bits_of(m);
                lemma_bits_of_injective(m, w.mask);
            }
        }
        b
    }

    fn insert_key(&mut self, w: &BitmaskWork) {
        let ghost pre = self.inner@;
        self.inner.insert(w.mask);
        proof {
            pre.lemma_set_map_insert_commute(w.mask, |m: u128| bits_of(m));
        }
    }
}

} // verus!
