//! Deduplicating stores backed by FNV-hashed sets.
//!
//! The value-sequence store keeps `Vec<u8>` keys, and the bit-vector store
//! keeps `bit_vec::BitVec` keys, each in an [`fnv::FnvHashSet`], which is
//! `std::collections::HashSet` with the FNV hasher.  The hasher is a
//! performance knob only: the set's contents are determined by key
//! equality, which for both key types is content equality.  Verus has no
//! model of the FNV build hasher nor of `BitVec`, so the handful of set and
//! bit-vector operations are trusted declarations whose contracts state
//! ordinary hash-set and bit-vector semantics over named views of the
//! collections.

use vstd::prelude::*;

use crate::engine::{Store, Workset};
use crate::model::lemma_map_len_injective;
use crate::workvec::{lemma_sorted_unique_by_content, strictly_sorted, VecWork};

verus! {

broadcast use vstd::set::group_set_axioms, vstd::seq::group_seq_axioms,
    vstd::seq_lib::group_seq_lib_default, vstd::set_lib::group_set_lib_default;

#[verifier::external_type_specification]
#[verifier::external_body]
pub struct ExFnvHasher(fnv::FnvHasher);

#[verifier::external_type_specification]
#[verifier::external_body]
#[verifier::reject_recursive_types(S)]
pub struct ExBuildHasherDefault<S>(std::hash::BuildHasherDefault<S>);

/// The byte sequences held by an FNV-hashed set of `Vec<u8>` keys.
pub uninterp spec fn seq_store_view(s: fnv::FnvHashSet<Vec<u8>>) -> Set<Seq<u8>>;

/// Relies on `HashSet::default` with the FNV hasher: a fresh set is empty.
#[verifier::external_body]
fn seq_store_new() -> (s: fnv::FnvHashSet<Vec<u8>>)
    ensures
        seq_store_view(s) == Set::<Seq<u8>>::empty(),
        seq_store_view(s).finite(),
{
    fnv::FnvHashSet::default()
}

/// Relies on `HashSet::insert` with the FNV hasher: afterwards the set holds
/// exactly the old keys plus this one (keys compare by byte content).
#[verifier::external_body]
fn seq_store_insert(s: &mut fnv::FnvHashSet<Vec<u8>>, key: Vec<u8>)
    ensures
        seq_store_view(*final(s)) == seq_store_view(*old(s)).insert(key@),
{
    s.insert(key);
}

/// Relies on `HashSet::contains` with the FNV hasher: membership is by byte
/// content.
#[verifier::external_body]
fn seq_store_contains(s: &fnv::FnvHashSet<Vec<u8>>, key: &Vec<u8>) -> (r: bool)
    ensures
        r == seq_store_view(*s).contains(key@),
{
    s.contains(key)
}

/// Relies on `HashSet::len`: one element per distinct key.
#[verifier::external_body]
fn seq_store_len(s: &fnv::FnvHashSet<Vec<u8>>) -> (r: usize)
    ensures
        r == seq_store_view(*s).len(),
{
    s.len()
}

/// The deduplicating store for value-sequence keys.  Every key it holds is a
/// strictly sorted item sequence, so distinct keys encode distinct contents.
pub struct SeqStore {
    pub inner: fnv::FnvHashSet<Vec<u8>>,
}

impl SeqStore {
    pub fn new() -> (s: SeqStore)
        ensures
            s.sinv(),
            s.contents() == Set::<Set<u8>>::empty(),
    {
        let inner = seq_store_new();
        proof {
            assert(seq_store_view(inner).map(|q: Seq<u8>| q.to_set())
                =~= Set::<Set<u8>>::empty());
        }
        SeqStore { inner }
    }

    /// Number of distinct itemsets recorded.
    pub fn len(&self) -> (n: usize)
        requires
            self.sinv(),
        ensures
            n == self.contents().len(),
    {
        proof {
            lemma_sorted_view_len(seq_store_view(self.inner));
        }
        seq_store_len(&self.inner)
    }
}

/// Strictly sorted sequences are in bijection with their contents, so the
/// store's size is the number of distinct recorded itemsets.
pub proof fn lemma_sorted_view_len(view: Set<Seq<u8>>)
    requires
        view.finite(),
        forall|q: Seq<u8>| #[trigger] view.contains(q) ==> strictly_sorted(q),
    ensures
        view.map(|q: Seq<u8>| q.to_set()).finite(),
        view.map(|q: Seq<u8>| q.to_set()).len() == view.len(),
{
    assert forall|q1: Seq<u8>, q2: Seq<u8>|
        view.contains(q1) && view.contains(q2) && #[trigger] q1.to_set() == #[trigger] q2.to_set()
        implies q1 == q2 by {
        lemma_sorted_unique_by_content(q1, q2);
    }
    lemma_map_len_injective(view, |q: Seq<u8>| q.to_set());
}

impl Store<VecWork> for SeqStore {
    open spec fn sinv(&self) -> bool {
        &&& seq_store_view(self.inner).finite()
        &&& forall|q: Seq<u8>| #[trigger] seq_store_view(self.inner).contains(q)
            ==> strictly_sorted(q)
    }

    open spec fn contents(&self) -> Set<Set<u8>> {
        seq_store_view(self.inner).map(|q: Seq<u8>| q.to_set())
    }

    open spec fn accepts(&self, c: Set<u8>) -> bool {
        true
    }

    proof fn lemma_accepts_subset(&self, c1: Set<u8>, c2: Set<u8>) {
    }

    fn contains_key(&self, w: &VecWork) -> (b: bool) {
        let b = seq_store_contains(&self.inner, &w.items);
        proof {
            if self.contents().contains(w.content()) {
                let q = choose|q: Seq<u8>|
                    seq_store_view(self.inner).contains(q) && w.content() == q.to_set();
                lemma_sorted_unique_by_content(q, w.items@);
            }
        }
        b
    }

    fn insert_key(&mut self, w: &VecWork) {
        let ghost pre = seq_store_view(self.inner);
        let key = w.clone_items();
        seq_store_insert(&mut self.inner, key);
        proof {
            pre.lemma_set_map_insert_commute(w.items@, |q: Seq<u8>| q.to_set());
        }
    }
}

#[verifier::external_type_specification]
#[verifier::external_body]
#[verifier::reject_recursive_types(B)]
pub struct ExBitVec<B>(bit_vec::BitVec<B>);

/// The bits held by a dynamic bit vector, in index order.
pub uninterp spec fn bv_view(bv: bit_vec::BitVec) -> Seq<bool>;

/// Relies on `BitVec::from_elem`: a vector of `len` bits, all `bit`.
#[verifier::external_body]
pub(crate) fn bv_from_elem(len: usize, bit: bool) -> (bv: bit_vec::BitVec)
    ensures
        bv_view(bv) == Seq::new(len as nat, |i: int| bit),
{
    bit_vec::BitVec::from_elem(len, bit)
}

/// Relies on `BitVec::set`: writes one bit in place; the index must be in
/// bounds, as `set` panics otherwise.
#[verifier::external_body]
pub(crate) fn bv_set(bv: &mut bit_vec::BitVec, i: usize, x: bool)
    requires
        i < bv_view(*old(bv)).len(),
    ensures
        bv_view(*final(bv)) == bv_view(*old(bv)).update(i as int, x),
{
    bv.set(i, x);
}

/// The bit sequences held by an FNV-hashed set of `BitVec` keys.  `BitVec`
/// equality and hashing go by length and bit content, so the set holds one
/// element per distinct bit sequence.
pub uninterp spec fn bv_store_view(s: fnv::FnvHashSet<bit_vec::BitVec>) -> Set<Seq<bool>>;

/// Relies on `HashSet::default` with the FNV hasher: a fresh set is empty.
#[verifier::external_body]
fn bv_store_new() -> (s: fnv::FnvHashSet<bit_vec::BitVec>)
    ensures
        bv_store_view(s) == Set::<Seq<bool>>::empty(),
        bv_store_view(s).finite(),
{
    fnv::FnvHashSet::default()
}

/// Relies on `HashSet::insert` with the FNV hasher: afterwards the set holds
/// exactly the old keys plus this one (keys compare by bit content).
#[verifier::external_body]
fn bv_store_insert(s: &mut fnv::FnvHashSet<bit_vec::BitVec>, key: bit_vec::BitVec)
    ensures
        bv_store_view(*final(s)) == bv_store_view(*old(s)).insert(bv_view(key)),
{
    s.insert(key);
}

/// Relies on `HashSet::contains` with the FNV hasher: membership is by bit
/// content.
#[verifier::external_body]
fn bv_store_contains(s: &fnv::FnvHashSet<bit_vec::BitVec>, key: &bit_vec::BitVec) -> (r: bool)
    ensures
        r == bv_store_view(*s).contains(bv_view(*key)),
{
    s.contains(key)
}

/// Relies on `HashSet::len`: one element per distinct key.
#[verifier::external_body]
fn bv_store_len(s: &fnv::FnvHashSet<bit_vec::BitVec>) -> (r: usize)
    ensures
        r == bv_store_view(*s).len(),
{
    s.len()
}

/// The itemset encoded by a fixed-width mask of booleans: bit `i` set means
/// item `i` present.
pub open spec fn mask_positions(q: Seq<bool>) -> Set<u8> {
    Set::new(|x: u8| (x as int) < q.len() && q[x as int])
}

/// The fixed-width mask of an itemset.
pub open spec fn bool_mask(c: Set<u8>, width: int) -> Seq<bool> {
    Seq::new(width as nat, |i: int| c.contains(i as u8))
}

/// Encoding an itemset whose items fit the width and decoding again is the
/// identity, and the mask of a content is the unique mask of that width with
/// those positions.
pub proof fn lemma_mask_round_trip(c: Set<u8>, width: int)
    requires
        0 <= width <= 256,
        forall|x: u8| c.contains(x) ==> (x as int) < width,
    ensures
        mask_positions(bool_mask(c, width)) == c,
{
    assert(mask_positions(bool_mask(c, width)) =~= c);
}

pub proof fn lemma_mask_of_positions(q: Seq<bool>)
    requires
        q.len() <= 256,
    ensures
        bool_mask(mask_positions(q), q.len() as int) == q,
{
    let c = mask_positions(q);
    assert forall|i: int| 0 <= i < q.len() implies bool_mask(c, q.len() as int)[i] == q[i] by {
        let x = i as u8;
        assert(x as int == i);
        assert(c.contains(x) == q[i]);
    }
    assert(bool_mask(c, q.len() as int) =~= q);
}

/// The deduplicating store for dynamic-bit-vector keys.  Every key it holds
/// is a mask of the store's fixed width, so distinct keys encode distinct
/// contents.
pub struct BitvStore {
    pub inner: fnv::FnvHashSet<bit_vec::BitVec>,
    pub width: usize,
}

impl BitvStore {
    /// An empty store whose keys are masks of `width` bits.
    pub fn new(width: usize) -> (s: BitvStore)
        requires
            width <= 256,
        ensures
            s.sinv(),
            s.contents() == Set::<Set<u8>>::empty(),
            s.width == width,
    {
        let inner = bv_store_new();
        proof {
            assert(bv_store_view(inner).map(|q: Seq<bool>| mask_positions(q))
                =~= Set::<Set<u8>>::empty());
        }
        BitvStore { inner, width }
    }

    /// Number of distinct itemsets recorded.
    pub fn len(&self) -> (n: usize)
        requires
            self.sinv(),
        ensures
            n == self.contents().len(),
    {
        proof {
            lemma_bv_view_len(bv_store_view(self.inner), self.width as int);
        }
        bv_store_len(&self.inner)
    }

    /// Build the key of the current content of a working itemset.
    fn encode(&self, w: &VecWork) -> (bv: bit_vec::BitVec)
        requires
            w.inv(),
            self.accepts(w.content()),
            self.width <= 256,
        ensures
            bv_view(bv) == bool_mask(w.content(), self.width as int),
    {
        proof {
            assert forall|i: int| 0 <= i < w.items@.len() implies (#[trigger] w.items@[i] as int)
                < self.width by {
                assert(w.items@.contains(w.items@[i]));
                assert(w.content().contains(w.items@[i]));
            }
        }
        crate::expander::bitvec::convert_itemset(w.items.as_slice(), self.width)
    }
}

/// Two well-formed bit-vector stores that accept exactly the same contents
/// share one key width.
pub proof fn lemma_accepts_pins_width(s1: BitvStore, s2: BitvStore)
    requires
        s1.sinv(),
        s2.sinv(),
        forall|c: Set<u8>| s1.accepts(c) == s2.accepts(c),
    ensures
        s1.width == s2.width,
{
    if s1.width < s2.width {
        let x = s1.width as u8;
        let c = Set::<u8>::empty().insert(x);
        assert(s2.accepts(c)) by {
            assert forall|y: u8| c.contains(y) implies (y as int) < s2.width by {
                assert(y == x);
            }
        }
        assert(c.contains(x) && !((x as int) < s1.width));
        assert(!s1.accepts(c));
    } else if s2.width < s1.width {
        let x = s2.width as u8;
        let c = Set::<u8>::empty().insert(x);
        assert(s1.accepts(c)) by {
            assert forall|y: u8| c.contains(y) implies (y as int) < s1.width by {
                assert(y == x);
            }
        }
        assert(c.contains(x) && !((x as int) < s2.width));
        assert(!s2.accepts(c));
    }
}

/// Masks of one shared width are in bijection with their contents, so the
/// store's size is the number of distinct recorded itemsets.
pub proof fn lemma_bv_view_len(view: Set<Seq<bool>>, width: int)
    requires
        view.finite(),
        0 <= width <= 256,
        forall|q: Seq<bool>| #[trigger] view.contains(q) ==> q.len() == width,
    ensures
        view.map(|q: Seq<bool>| mask_positions(q)).finite(),
        view.map(|q: Seq<bool>| mask_positions(q)).len() == view.len(),
{
    assert forall|q1: Seq<bool>, q2: Seq<bool>|
        view.contains(q1) && view.contains(q2) && #[trigger] mask_positions(q1)
            == #[trigger] mask_positions(q2) implies q1 == q2 by {
        lemma_mask_of_positions(q1);
        lemma_mask_of_positions(q2);
    }
    lemma_map_len_injective(view, |q: Seq<bool>| mask_positions(q));
}

impl Store<VecWork> for BitvStore {
    open spec fn sinv(&self) -> bool {
        &&& bv_store_view(self.inner).finite()
        &&& self.width <= 256
        &&& forall|q: Seq<bool>| #[trigger] bv_store_view(self.inner).contains(q) ==> q.len()
            == self.width
    }

    open spec fn contents(&self) -> Set<Set<u8>> {
        bv_store_view(self.inner).map(|q: Seq<bool>| mask_positions(q))
    }

    open spec fn accepts(&self, c: Set<u8>) -> bool {
        forall|x: u8| c.contains(x) ==> (x as int) < self.width
    }

    proof fn lemma_accepts_subset(&self, c1: Set<u8>, c2: Set<u8>) {
        assert forall|x: u8| c2.contains(x) implies (x as int) < self.width by {
            assert(c1.contains(x));
        }
    }

    fn contains_key(&self, w: &VecWork) -> (b: bool) {
        let key = self.encode(w);
        let b = bv_store_contains(&self.inner, &key);
        proof {
            lemma_mask_round_trip(w.content(), self.width as int);
            if self.contents().contains(w.content()) {
                let q = choose|q: Seq<bool>|
                    bv_store_view(self.inner).contains(q) && w.content() == mask_positions(q);
                lemma_mask_of_positions(q);
            }
        }
        b
    }

    fn insert_key(&mut self, w: &VecWork) {
        let ghost pre = bv_store_view(self.inner);
        let key = self.encode(w);
        bv_store_insert(&mut self.inner, key);
        proof {
            lemma_mask_round_trip(w.content(), self.width as int);
            pre.lemma_set_map_insert_commute(
                bool_mask(w.content(), self.width as int),
                |q: Seq<bool>| mask_positions(q),
            );
        }
    }
}

} // verus!
