//! Digest-key representation: the lossy mode.
//!
//! Instead of a structural key, only a 64-bit digest of the canonical item
//! sequence is stored.  Two different contents may collide to the same
//! digest, in which case they are silently merged: this is a deliberate,
//! documented approximation of the digest mode, not an error.  The contracts
//! reflect it faithfully: the store never holds more than one key per
//! recorded itemset, records every input itemset, and — whenever the digest
//! function is collision-free on the batch's closure — holds exactly one key
//! per member of the closure.

use vstd::prelude::*;

use std::hash::Hasher;

use crate::engine::Workset;
use crate::model::{
    batch_closure, child_closures, closure_of, downward_closed, lemma_closure_decomposition,
    lemma_closure_downward_closed, lemma_closure_in_batch, lemma_closure_of_member,
    lemma_closure_shrink, lemma_closure_small, lemma_dc_insert_small, lemma_dc_union,
};
use crate::workvec::{lemma_sorted_unique_by_content, strictly_sorted, VecWork};

verus! {

broadcast use vstd::set::group_set_axioms, vstd::seq::group_seq_axioms,
    vstd::seq_lib::group_seq_lib_default, vstd::set_lib::group_set_lib_default,
    vstd::std_specs::hash::group_hash_axioms;

/// A digest algorithm: a 64-bit hash of a byte sequence, a function of the
/// bytes alone.
pub trait Digest {
    /// The digest, as a mathematical function of the byte sequence.
    spec fn hash(s: Seq<u8>) -> u64;

    /// Compute the digest of a byte vector.
    fn compute(v: &Vec<u8>) -> (r: u64)
        ensures
            r == Self::hash(v@),
    ;
}

/// The 64-bit FNV-1a digest of a byte sequence.
pub uninterp spec fn fnv_digest(s: Seq<u8>) -> u64;

/// Relies on `fnv::FnvHasher` (its `Default` and `Hasher` impls): hashing a
/// byte slice from the fixed default key folds in the bytes one by one, so
/// the digest depends on the bytes alone.
#[verifier::external_body]
fn fnv_digest_of(v: &Vec<u8>) -> (r: u64)
    ensures
        r == fnv_digest(v@),
{
    let mut hasher = fnv::FnvHasher::default();
    std::hash::Hash::hash_slice(v.as_slice(), &mut hasher);
    std::hash::Hasher::finish(&hasher)
}

/// The FNV-1a digest algorithm.
pub struct FnvDigest;

impl Digest for FnvDigest {
    open spec fn hash(s: Seq<u8>) -> u64 {
        fnv_digest(s)
    }

    fn compute(v: &Vec<u8>) -> (r: u64) {
        fnv_digest_of(v)
    }
}

/// The standard library's default hasher as a digest algorithm.
pub struct StdDigest;

impl Digest for StdDigest {
    open spec fn hash(s: Seq<u8>) -> u64 {
        <std::collections::hash_map::DefaultHasher as vstd::std_specs::hash::DefaultHasherAdditionalSpecFns>::spec_finish(
            seq![s],
        )
    }

    fn compute(v: &Vec<u8>) -> (r: u64) {
        let mut hasher = std::collections::hash_map::DefaultHasher::new();
        hasher.write(v.as_slice());
        let r = hasher.finish();
        proof {
            assert(hasher@ =~= seq![v@]);
        }
        r
    }
}

/// The strictly sorted item sequences of the itemsets of a family: the
/// canonical byte sequences the digest mode hashes.
pub open spec fn canonical_seqs(cs: Set<Set<u8>>) -> Set<Seq<u8>> {
    Set::new(|q: Seq<u8>| strictly_sorted(q) && cs.contains(q.to_set()))
}

/// Whether a digest function is collision-free on a set of byte sequences.
pub open spec fn collision_free(hash: spec_fn(Seq<u8>) -> u64, qs: Set<Seq<u8>>) -> bool {
    forall|q1: Seq<u8>, q2: Seq<u8>|
        qs.contains(q1) && qs.contains(q2) && #[trigger] hash(q1) == #[trigger] hash(q2) ==> q1
            == q2
}

/// The deduplicating store of the digest mode: the 64-bit digests recorded
/// so far, together with a ghost record of the canonical sequences whose
/// digests were inserted.
pub struct DigestStore {
    pub inner: std::collections::HashSet<u64>,
    pub seqs: Ghost<Set<Seq<u8>>>,
}

impl DigestStore {
    /// The recorded digests.
    pub open spec fn keys(&self) -> Set<u64> {
        self.inner@
    }

    /// The itemsets whose keys were recorded.
    pub open spec fn model(&self) -> Set<Set<u8>> {
        self.seqs@.map(|q: Seq<u8>| q.to_set())
    }

    /// Representation invariant, for a given digest function: every recorded
    /// sequence is canonical, and the digests are exactly theirs.
    pub open spec fn sinv(&self, hash: spec_fn(Seq<u8>) -> u64) -> bool {
        &&& self.seqs@.finite()
        &&& forall|q: Seq<u8>| #[trigger] self.seqs@.contains(q) ==> strictly_sorted(q)
        &&& self.inner@ == self.seqs@.map(hash)
    }

    pub fn new() -> (s: DigestStore)
        ensures
            s.inner@ == Set::<u64>::empty(),
            s.seqs@ == Set::<Seq<u8>>::empty(),
    {
        DigestStore { inner: std::collections::HashSet::new(), seqs: Ghost(Set::empty()) }
    }

    /// Number of distinct digests recorded.  Because of possible collisions
    /// this may undercount the distinct itemsets, never overcount them.
    pub fn len(&self) -> (n: usize)
        ensures
            n == self.keys().len(),
    {
        self.inner.len()
    }

    /// The recorded digests, listed once each in no guaranteed order: one
    /// pass over the store is sufficient.
    pub fn items(&self) -> (r: Vec<u64>)
        ensures
            forall|k: int| 0 <= k < r@.len() ==> self.keys().contains(#[trigger] r@[k]),
            r@.no_duplicates(),
            self.keys().finite() ==> r@.to_set() == self.keys() && r@.len()
                == self.keys().len(),
    {
        let mut out: Vec<u64> = Vec::new();
        let ghost mut seen: Seq<u64> = Seq::empty();
        for m in it: self.inner.iter()
            invariant
                it.seq().unref().to_set() == self.inner@,
                it.seq().unref().no_duplicates(),
                it.seq().len() == self.inner@.len(),
                seen == it.seq().unref().take(it.index() as int),
                seen.len() == it.index(),
                seen.no_duplicates(),
                seen.to_set().subset_of(self.inner@),
                out@ == seen,
        {
            out.push(*m);
            proof {
                let idx = it.index() as int;
                let unref = it.seq().unref();
                assert(*m == unref[idx]);
                assert(unref.take(idx + 1) =~= unref.take(idx).push(unref[idx]));
                assert(!seen.contains(*m)) by {
                    if seen.contains(*m) {
                        let j = choose|j: int| 0 <= j < seen.len() && seen[j] == *m;
                        assert(unref[j] == unref[idx]);
                    }
                }
                assert(unref.contains(unref[idx]));
                assert(unref.to_set().contains(*m));
                let pre = seen;
                seen = pre.push(*m);
                assert(seen.no_duplicates()) by {
                    assert forall|p: int, q: int|
                        0 <= p < seen.len() && 0 <= q < seen.len() && p != q implies seen[p]
                        != seen[q] by {
                        if p < pre.len() && q < pre.len() {
                            assert(pre[p] != pre[q]);
                        } else if p < pre.len() {
                            assert(pre.contains(pre[p]));
                        } else {
                            assert(pre.contains(pre[q]));
                        }
                    }
                }
                pre.lemma_push_to_set_commute(*m);
                assert(seen.to_set() == pre.to_set().insert(*m));
            }
        }
        proof {
            if self.inner@.finite() {
                assert(seen.len() == self.inner@.len());
                seen.unique_seq_to_set();
                assert forall|m: u64| self.inner@.contains(m) implies seen.to_set().contains(
                    m,
                ) by {
                    if !seen.to_set().contains(m) {
                        assert(seen.to_set().subset_of(self.inner@.remove(m)));
                        vstd::set_lib::lemma_len_subset(seen.to_set(), self.inner@.remove(m));
                    }
                }
                assert(seen.to_set() =~= self.inner@);
            }
            assert forall|k: int| 0 <= k < out@.len() implies self.keys().contains(
                #[trigger] out@[k],
            ) by {
                assert(seen.to_set().contains(seen[k]));
            }
        }
        out
    }
}

/// The store never holds more digests than recorded itemsets, and never more
/// recorded itemsets than the family that bounds them: the digest mode can
/// only undercount.
pub proof fn lemma_digest_count_bounded(
    store: DigestStore,
    hash: spec_fn(Seq<u8>) -> u64,
    bound: Set<Set<u8>>,
)
    requires
        store.sinv(hash),
        store.model().subset_of(bound),
        bound.finite(),
    ensures
        store.keys().finite(),
        store.keys().len() <= bound.len(),
{
    crate::model::lemma_map_len_le(store.seqs@, hash);
    crate::model::lemma_map_len_le(store.seqs@, |q: Seq<u8>| q.to_set());
    assert forall|q1: Seq<u8>, q2: Seq<u8>|
        store.seqs@.contains(q1) && store.seqs@.contains(q2) && #[trigger] q1.to_set()
            == #[trigger] q2.to_set() implies q1 == q2 by {
        lemma_sorted_unique_by_content(q1, q2);
    }
    crate::model::lemma_map_len_injective(store.seqs@, |q: Seq<u8>| q.to_set());
    vstd::set_lib::lemma_len_subset(store.model(), bound);
}

/// Expand one working itemset into the shared digest store.
///
/// Unconditionally: the working itemset is restored, its own key is
/// recorded, and the recorded itemsets grow by at most the expansion of its
/// content.  When the digest is collision-free on the canonical sequences of
/// `dom` (a family that bounds everything this call can touch), the growth
/// is exactly that expansion, as in the structural representations.
pub fn expand_one_solution_to_lower_level<D: Digest>(
    solution: &mut VecWork,
    final_set: &mut DigestStore,
    Ghost(c): Ghost<Set<u8>>,
    Ghost(dom): Ghost<Set<Set<u8>>>,
)
    requires
        old(solution).inv(),
        old(solution).content() == c,
        old(final_set).sinv(|q: Seq<u8>| D::hash(q)),
        old(final_set).model().subset_of(dom),
        closure_of(c).subset_of(dom),
        collision_free(|q: Seq<u8>| D::hash(q), canonical_seqs(dom)) ==> downward_closed(
            old(final_set).model(),
        ),
    ensures
        final(solution).inv(),
        final(solution).content() == c,
        final(final_set).sinv(|q: Seq<u8>| D::hash(q)),
        old(final_set).model().subset_of(final(final_set).model()),
        final(final_set).model().subset_of(old(final_set).model().union(closure_of(c))),
        final(final_set).model().contains(c),
        collision_free(|q: Seq<u8>| D::hash(q), canonical_seqs(dom)) ==> {
            &&& final(final_set).model() == old(final_set).model().union(closure_of(c))
            &&& downward_closed(final(final_set).model())
        },
    decreases c.len(),
{
    let ghost hash = |q: Seq<u8>| D::hash(q);
    let ghost cf = collision_free(hash, canonical_seqs(dom));
    proof {
        solution.lemma_content_finite();
    }
    let ghost store0 = *final_set;
    let length = solution.size();
    if length > 1 {
        let elems = solution.elements();
        let n = elems.len();
        proof {
            elems@.unique_seq_to_set();
            assert(n == c.len());
        }
        let mut i: usize = 0;
        while i < n
            invariant
                i <= n,
                n == elems@.len(),
                elems@.no_duplicates(),
                elems@.to_set() == c,
                c.finite(),
                c.len() == n,
                n > 1,
                solution.inv(),
                solution.content() == c,
                final_set.sinv(hash),
                hash == (|q: Seq<u8>| D::hash(q)),
                cf == collision_free(hash, canonical_seqs(dom)),
                store0.sinv(hash),
                store0.model().subset_of(dom),
                closure_of(c).subset_of(dom),
                cf ==> downward_closed(store0.model()),
                store0.model().subset_of(final_set.model()),
                final_set.model().subset_of(
                    store0.model().union(child_closures(c, elems@, i as int)),
                ),
                cf ==> final_set.model() == store0.model().union(
                    child_closures(c, elems@, i as int),
                ),
                cf ==> downward_closed(final_set.model()),
            decreases n - i,
        {
            let x = elems[i];
            proof {
                assert(elems@.to_set().contains(elems@[i as int]));
                assert(c.contains(x));
            }
            solution.remove_item(x);
            let ghost child = c.remove(x);
            proof {
                assert(child.len() == c.len() - 1);
                lemma_closure_shrink(c, x);
                assert(closure_of(child).subset_of(dom));
                assert(closure_of(child).contains(child));
                assert(final_set.model().subset_of(dom)) by {
                    crate::model::lemma_child_closures_subset(c, elems@, i as int);
                }
            }
            let key = D::compute(&solution.items);
            let present = final_set.inner.contains(&key);
            proof {
                if cf {
                    // under collision freedom the digest check is a content check
                    assert(canonical_seqs(dom).contains(solution.items@));
                    if present {
                        let q = choose|q: Seq<u8>|
                            final_set.seqs@.contains(q) && hash(q) == key;
                        assert(final_set.seqs@.map(hash).contains(key));
                        assert(final_set.model().contains(q.to_set())) by {
                            assert(final_set.seqs@.map(|q2: Seq<u8>| q2.to_set()).contains(
                                q.to_set(),
                            ));
                        }
                        assert(canonical_seqs(dom).contains(q));
                        assert(hash(q) == hash(solution.items@));
                        assert(q == solution.items@);
                        assert(final_set.model().contains(child));
                    } else {
                        if final_set.model().contains(child) {
                            let q = choose|q: Seq<u8>|
                                final_set.seqs@.contains(q) && child == q.to_set();
                            lemma_sorted_unique_by_content(q, solution.items@);
                            assert(final_set.seqs@.map(hash).contains(key));
                            assert(false);
                        }
                    }
                }
            }
            if !present {
                expand_one_solution_to_lower_level::<D>(
                    solution,
                    final_set,
                    Ghost(child),
                    Ghost(dom),
                );
            } else {
                proof {
                    if cf {
                        lemma_closure_of_member(final_set.model(), child);
                        assert(final_set.model().union(closure_of(child))
                            =~= final_set.model());
                    }
                }
            }
            solution.restore_item(x);
            proof {
                assert(child.insert(x) =~= c);
                assert(child_closures(c, elems@, i + 1) == child_closures(c, elems@, i as int)
                    .union(closure_of(child)));
                assert(final_set.model().subset_of(
                    store0.model().union(child_closures(c, elems@, i + 1)),
                ));
                if cf {
                    assert(store0.model().union(child_closures(c, elems@, i as int)).union(
                        closure_of(child),
                    ) =~= store0.model().union(child_closures(c, elems@, i + 1)));
                }
            }
            i = i + 1;
        }
        let key = D::compute(&solution.items);
        let ghost pre = *final_set;
        record_key(final_set, key, Ghost(solution.items@), Ghost(hash));
        proof {
            assert(pre.model().insert(c) =~= pre.model().union(Set::empty().insert(c)));
            lemma_closure_decomposition(c, elems@);
            assert(closure_of(c).contains(c));
            assert(final_set.model() =~= pre.model().insert(c));
            assert(final_set.model().subset_of(store0.model().union(closure_of(c)))) by {
                crate::model::lemma_child_closures_subset(c, elems@, n as int);
            }
            if cf {
                assert(store0.model().union(child_closures(c, elems@, n as int)).insert(c)
                    =~= store0.model().union(closure_of(c)));
                lemma_closure_downward_closed(c);
                lemma_dc_union(store0.model(), closure_of(c));
            }
        }
    } else {
        let key = D::compute(&solution.items);
        let ghost pre = *final_set;
        record_key(final_set, key, Ghost(solution.items@), Ghost(hash));
        proof {
            lemma_closure_small(c);
            assert(final_set.model() =~= pre.model().insert(c));
            assert(store0.model().insert(c) =~= store0.model().union(closure_of(c)));
            if cf {
                lemma_dc_insert_small(store0.model(), c);
            }
        }
    }
}

/// Record one digest and mirror the inserted sequence in the ghost record.
fn record_key(store: &mut DigestStore, key: u64, Ghost(q): Ghost<Seq<u8>>, Ghost(
    hash,
): Ghost<spec_fn(Seq<u8>) -> u64>)
    requires
        old(store).sinv(hash),
        strictly_sorted(q),
        key == hash(q),
    ensures
        final(store).sinv(hash),
        final(store).seqs@ == old(store).seqs@.insert(q),
        final(store).model() == old(store).model().insert(q.to_set()),
{
    let ghost pre = store.seqs@;
    store.inner.insert(key);
    proof {
        store.seqs@ = pre.insert(q);
        pre.lemma_set_map_insert_commute(q, hash);
        pre.lemma_set_map_insert_commute(q, |q2: Seq<u8>| q2.to_set());
    }
}

/// Run the digest engine once per converted input itemset against the one
/// shared store, in source order.
pub fn expand_digest_works<D: Digest>(
    works: Vec<VecWork>,
    final_set: &mut DigestStore,
    Ghost(dom): Ghost<Set<Set<u8>>>,
)
    requires
        forall|i: int| 0 <= i < works@.len() ==> (#[trigger] works@[i]).inv(),
        old(final_set).sinv(|q: Seq<u8>| D::hash(q)),
        old(final_set).model() == Set::<Set<u8>>::empty(),
        batch_closure(works@.map_values(|w: VecWork| w.content())).subset_of(dom),
    ensures
        final(final_set).sinv(|q: Seq<u8>| D::hash(q)),
        final(final_set).model().subset_of(
            batch_closure(works@.map_values(|w: VecWork| w.content())),
        ),
        forall|i: int|
            0 <= i < works@.len() ==> final(final_set).model().contains(
                (#[trigger] works@[i]).content(),
            ),
        collision_free(|q: Seq<u8>| D::hash(q), canonical_seqs(dom))
            ==> final(final_set).model() == batch_closure(
            works@.map_values(|w: VecWork| w.content()),
        ),
{
    let ghost hash = |q: Seq<u8>| D::hash(q);
    let ghost cf = collision_free(hash, canonical_seqs(dom));
    let ghost all = works@;
    let ghost batch = works@.map_values(|w: VecWork| w.content());
    let mut rest = works;
    let ghost mut i: int = 0;
    proof {
        assert(batch_closure(batch.take(0)) =~= Set::<Set<u8>>::empty());
    }
    while rest.len() > 0
        invariant
            0 <= i,
            i + rest@.len() == all.len(),
            batch == all.map_values(|w: VecWork| w.content()),
            rest@ == all.skip(i),
            forall|j: int| 0 <= j < all.len() ==> (#[trigger] all[j]).inv(),
            final_set.sinv(hash),
            hash == (|q: Seq<u8>| D::hash(q)),
            cf == collision_free(hash, canonical_seqs(dom)),
            batch_closure(batch).subset_of(dom),
            final_set.model().subset_of(batch_closure(batch.take(i))),
            forall|j: int| 0 <= j < i ==> final_set.model().contains(#[trigger] batch[j]),
            cf ==> final_set.model() == batch_closure(batch.take(i)),
            cf ==> downward_closed(final_set.model()),
        decreases rest@.len(),
    {
        let mut w = rest.remove(0);
        proof {
            assert(w == all[i]);
        }
        let ghost c = w.content();
        let ghost pre = final_set.model();
        proof {
            assert(c == batch[i]);
            lemma_closure_in_batch(batch, i);
            assert(batch_closure(batch.take(i)).subset_of(batch_closure(batch))) by {
                lemma_batch_take_subset(batch, i);
            }
        }
        expand_one_solution_to_lower_level::<D>(&mut w, final_set, Ghost(c), Ghost(dom));
        proof {
            assert(batch.take(i + 1).drop_last() =~= batch.take(i));
            assert(batch.take(i + 1).last() == batch[i]);
            assert(batch_closure(batch.take(i + 1)) == batch_closure(batch.take(i)).union(
                closure_of(c),
            ));
            assert(final_set.model().subset_of(batch_closure(batch.take(i + 1)))) by {
                assert(pre.subset_of(batch_closure(batch.take(i))));
            }
            if cf {
                assert(final_set.model() =~= batch_closure(batch.take(i + 1)));
            }
            assert(rest@ =~= all.skip(i + 1));
            i = i + 1;
        }
    }
    proof {
        assert(batch.take(all.len() as int) =~= batch);
        assert forall|j: int| 0 <= j < all.len() implies final_set.model().contains(
            (#[trigger] all[j]).content(),
        ) by {
            assert(batch[j] == all[j].content());
        }
    }
}

/// What the digest mode guarantees of a store built from a batch: one key
/// per recorded itemset, every input itemset recorded, nothing outside the
/// batch's downward closure recorded, and — when the digest is
/// collision-free on the closure's canonical sequences — the recorded
/// itemsets are exactly the closure.
pub open spec fn batch_digest_contract<D: Digest>(batch: Seq<Set<u8>>, store: DigestStore) -> bool {
    &&& store.sinv(|q: Seq<u8>| D::hash(q))
    &&& store.keys().finite()
    &&& store.model().subset_of(batch_closure(batch))
    &&& forall|i: int| 0 <= i < batch.len() ==> store.model().contains(#[trigger] batch[i])
    &&& collision_free(|q: Seq<u8>| D::hash(q), canonical_seqs(batch_closure(batch)))
        ==> store.model() == batch_closure(batch)
}

/// Convert a batch of records and expand them all into one fresh digest
/// store.
///
/// The store records exactly one digest per distinct recorded itemset; every
/// input itemset is recorded, nothing outside the batch's downward closure
/// is, and when the digest function is collision-free on the closure's
/// canonical sequences the recorded itemsets are exactly the closure.  Each
/// record's items must be unique within that record.
pub fn expand_parsed<D: Digest>(parsed_set: Vec<crate::JsonSet>) -> (store: DigestStore)
    requires
        crate::expander::vec::all_records_unique(parsed_set@),
    ensures
        batch_digest_contract::<D>(
            parsed_set@.map_values(|rec: crate::JsonSet| rec.set@.to_set()),
            store,
        ),
{
    let ghost batch = parsed_set@.map_values(|rec: crate::JsonSet| rec.set@.to_set());
    let mut works: Vec<VecWork> = Vec::new();
    let mut i: usize = 0;
    while i < parsed_set.len()
        invariant
            i <= parsed_set@.len(),
            works@.len() == i,
            crate::expander::vec::all_records_unique(parsed_set@),
            batch == parsed_set@.map_values(|rec: crate::JsonSet| rec.set@.to_set()),
            forall|k: int|
                0 <= k < i ==> (#[trigger] works@[k]).inv() && works@[k].content() == batch[k],
        decreases parsed_set@.len() - i,
    {
        let rec = &parsed_set[i];
        let w = VecWork::from_items(&rec.set);
        works.push(w);
        i = i + 1;
    }
    let mut store = DigestStore::new();
    proof {
        assert(works@.map_values(|w: VecWork| w.content()) =~= batch);
        assert(store.seqs@.map(|q: Seq<u8>| D::hash(q)) =~= Set::<u64>::empty());
        assert(store.model() =~= Set::<Set<u8>>::empty());
    }
    expand_digest_works::<D>(works, &mut store, Ghost(batch_closure(batch)));
    proof {
        assert forall|j: int| 0 <= j < batch.len() implies store.model().contains(
            #[trigger] batch[j],
        ) by {
            assert(batch[j] == works@[j].content());
        }
        crate::model::lemma_map_len_le(store.seqs@, |q: Seq<u8>| D::hash(q));
    }
    store
}

/// A prefix of a batch expands to a subfamily of the whole batch's
/// expansion.
pub proof fn lemma_batch_take_subset(batch: Seq<Set<u8>>, k: int)
    requires
        0 <= k <= batch.len(),
    ensures
        batch_closure(batch.take(k)).subset_of(batch_closure(batch)),
    decreases batch.len() - k,
{
    if k < batch.len() {
        lemma_batch_take_subset(batch, k + 1);
        assert(batch.take(k + 1).drop_last() =~= batch.take(k));
        assert(batch_closure(batch.take(k)).subset_of(batch_closure(batch.take(k + 1))));
    } else {
        assert(batch.take(k) =~= batch);
    }
}

} // verus!
