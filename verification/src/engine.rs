//! The expansion engine.
//!
//! The recursive subset-generation algorithm is written once, against two
//! capabilities: a [`Workset`] is a mutable working itemset that supports
//! in-place removal and restoration of single elements, and a [`Store`] is a
//! deduplicating collection of canonical keys, viewed abstractly as the set
//! of itemset contents recorded so far.  Each key representation (packed
//! bitmask, dynamic bit vector, ordered value sequence) supplies its own
//! implementations; the engine and its proof are shared.

use vstd::prelude::*;

use crate::model::{
    batch_closure, child_closures, closure_of, downward_closed, lemma_closure_decomposition,
    lemma_closure_downward_closed, lemma_closure_of_member, lemma_closure_small, lemma_dc_insert_small,
    lemma_dc_union,
};

verus! {

broadcast use vstd::set::group_set_axioms, vstd::seq::group_seq_axioms,
    vstd::seq_lib::group_seq_lib_default, vstd::set_lib::group_set_lib_default;

/// A mutable working itemset, abstractly a finite set of item identifiers.
pub trait Workset: Sized {
    /// Representation invariant.
    spec fn inv(&self) -> bool;

    /// The current content, as a set of item identifiers.
    spec fn content(&self) -> Set<u8>;

    /// Which item identifiers this working set can hold at all (for example,
    /// a fixed-width mask holds only small identifiers).
    spec fn admits(&self, x: u8) -> bool;

    proof fn lemma_content_admitted(&self)
        requires
            self.inv(),
        ensures
            forall|x: u8| self.content().contains(x) ==> self.admits(x),
    ;

    proof fn lemma_content_finite(&self)
        requires
            self.inv(),
        ensures
            self.content().finite(),
    ;

    /// Number of items currently held.
    fn size(&self) -> (n: usize)
        requires
            self.inv(),
        ensures
            n == self.content().len(),
    ;

    /// The current items, listed without duplicates.
    fn elements(&self) -> (v: Vec<u8>)
        requires
            self.inv(),
        ensures
            v@.no_duplicates(),
            v@.to_set() == self.content(),
    ;

    /// Remove the item `x`, which must be present.
    fn remove_item(&mut self, x: u8)
        requires
            old(self).inv(),
            old(self).content().contains(x),
        ensures
            final(self).inv(),
            final(self).content() == old(self).content().remove(x),
            forall|y: u8| final(self).admits(y) == old(self).admits(y),
    ;

    /// Restore the item `x`, which must be absent; exact inverse of
    /// [`Workset::remove_item`].
    fn restore_item(&mut self, x: u8)
        requires
            old(self).inv(),
            old(self).admits(x),
            !old(self).content().contains(x),
        ensures
            final(self).inv(),
            final(self).content() == old(self).content().insert(x),
            forall|y: u8| final(self).admits(y) == old(self).admits(y),
    ;
}

/// A deduplicating store of canonical keys, viewed as the set of itemset
/// contents recorded so far.
pub trait Store<W: Workset>: Sized {
    /// Representation invariant.
    spec fn sinv(&self) -> bool;

    /// The contents recorded so far.
    spec fn contents(&self) -> Set<Set<u8>>;

    /// Which itemset contents this store can encode at all (for example, a
    /// fixed-width key bounds the item identifiers it can represent).
    spec fn accepts(&self, c: Set<u8>) -> bool;

    proof fn lemma_accepts_subset(&self, c1: Set<u8>, c2: Set<u8>)
        requires
            self.sinv(),
            self.accepts(c1),
            c2.subset_of(c1),
        ensures
            self.accepts(c2),
    ;

    /// Whether the key of the working itemset's current content is recorded.
    fn contains_key(&self, w: &W) -> (b: bool)
        requires
            self.sinv(),
            w.inv(),
            self.accepts(w.content()),
        ensures
            b == self.contents().contains(w.content()),
    ;

    /// Record the key of the working itemset's current content.
    fn insert_key(&mut self, w: &W)
        requires
            old(self).sinv(),
            w.inv(),
            old(self).accepts(w.content()),
        ensures
            final(self).sinv(),
            final(self).contents() == old(self).contents().insert(w.content()),
            forall|c: Set<u8>| final(self).accepts(c) == old(self).accepts(c),
    ;
}

/// Expand one working itemset into the shared store: record its own key, and
/// recursively record every non-empty subset reachable by repeated removal of
/// single elements, pruning any subtree whose key is already recorded.
///
/// On return the working itemset is restored to its original content, and the
/// store has grown by exactly the expansion of that content.
pub fn expand_one_solution_to_lower_level<W: Workset, S: Store<W>>(
    solution: &mut W,
    final_set: &mut S,
    Ghost(c): Ghost<Set<u8>>,
)
    requires
        old(solution).inv(),
        old(solution).content() == c,
        old(final_set).sinv(),
        old(final_set).accepts(c),
        downward_closed(old(final_set).contents()),
    ensures
        final(solution).inv(),
        final(solution).content() == c,
        forall|y: u8| final(solution).admits(y) == old(solution).admits(y),
        final(final_set).sinv(),
        forall|cc: Set<u8>| final(final_set).accepts(cc) == old(final_set).accepts(cc),
        final(final_set).contents() == old(final_set).contents().union(closure_of(c)),
        downward_closed(final(final_set).contents()),
    decreases c.len(),
{
    proof {
        solution.lemma_content_finite();
    }
    let ghost store0 = *final_set;
    let ghost w0 = *solution;
    let length = solution.size();
    if length > 1 {
        let elems = solution.elements();
        let n = elems.len();
        proof {
            elems@.unique_seq_to_set();
            assert(n == c.len());
        }
        let mut i: usize = 0;
        while i < n
            invariant
                i <= n,
                n == elems@.len(),
                elems@.no_duplicates(),
                elems@.to_set() == c,
                c.finite(),
                c.len() == n,
                n > 1,
                solution.inv(),
                solution.content() == c,
                forall|y: u8| solution.admits(y) == w0.admits(y),
                final_set.sinv(),
                forall|cc: Set<u8>| final_set.accepts(cc) == store0.accepts(cc),
                store0.accepts(c),
                store0.sinv(),
                downward_closed(store0.contents()),
                final_set.contents() == store0.contents().union(
                    child_closures(c, elems@, i as int),
                ),
                downward_closed(final_set.contents()),
            decreases n - i,
        {
            let x = elems[i];
            proof {
                assert(elems@.to_set().contains(elems@[i as int]));
                assert(c.contains(x));
                solution.lemma_content_admitted();
            }
            solution.remove_item(x);
            let ghost child = c.remove(x);
            proof {
                assert(child.len() == c.len() - 1);
                final_set.lemma_accepts_subset(c, child);
            }
            let present = final_set.contains_key(solution);
            if !present {
                expand_one_solution_to_lower_level(solution, final_set, Ghost(child));
            } else {
                proof {
                    lemma_closure_of_member(final_set.contents(), child);
                    assert(final_set.contents().union(closure_of(child)) =~= final_set.contents());
                }
            }
            solution.restore_item(x);
            proof {
                assert(child.insert(x) =~= c);
                assert(child_closures(c, elems@, i + 1) == child_closures(c, elems@, i as int)
                    .union(closure_of(child)));
                assert(store0.contents().union(child_closures(c, elems@, i as int)).union(
                    closure_of(child),
                ) =~= store0.contents().union(child_closures(c, elems@, i + 1)));
            }
            i = i + 1;
        }
        final_set.insert_key(solution);
        proof {
            lemma_closure_decomposition(c, elems@);
            assert(store0.contents().union(child_closures(c, elems@, n as int)).insert(c)
                =~= store0.contents().union(closure_of(c)));
            lemma_closure_downward_closed(c);
            lemma_dc_union(store0.contents(), closure_of(c));
        }
    } else {
        final_set.insert_key(solution);
        proof {
            lemma_closure_small(c);
            assert(store0.contents().insert(c) =~= store0.contents().union(closure_of(c)));
            lemma_dc_insert_small(store0.contents(), c);
        }
    }
}

/// Run the engine once per converted input itemset against the one shared
/// store, in source order.
pub fn expand_works<W: Workset, S: Store<W>>(works: Vec<W>, final_set: &mut S)
    requires
        forall|i: int|
            0 <= i < works@.len() ==> (#[trigger] works@[i]).inv() && old(final_set).accepts(
                works@[i].content(),
            ),
        old(final_set).sinv(),
        downward_closed(old(final_set).contents()),
    ensures
        final(final_set).sinv(),
        forall|cc: Set<u8>| final(final_set).accepts(cc) == old(final_set).accepts(cc),
        final(final_set).contents() == old(final_set).contents().union(
            batch_closure(works@.map_values(|w: W| w.content())),
        ),
        downward_closed(final(final_set).contents()),
{
    let ghost store0 = *final_set;
    let ghost all = works@;
    let ghost batch = works@.map_values(|w: W| w.content());
    let mut rest = works;
    let ghost mut i: int = 0;
    while rest.len() > 0
        invariant
            i + rest@.len() == all.len(),
            batch == all.map_values(|w: W| w.content()),
            0 <= i,
            rest@ == all.skip(i),
            forall|j: int|
                0 <= j < all.len() ==> (#[trigger] all[j]).inv() && store0.accepts(
                    all[j].content(),
                ),
            final_set.sinv(),
            forall|cc: Set<u8>| final_set.accepts(cc) == store0.accepts(cc),
            final_set.contents() == store0.contents().union(batch_closure(batch.take(i))),
            downward_closed(final_set.contents()),
        decreases rest@.len(),
    {
        let mut w = rest.remove(0);
        proof {
            assert(w == all[i]);
        }
        let ghost c = w.content();
        expand_one_solution_to_lower_level(&mut w, final_set, Ghost(c));
        proof {
            assert(c == batch[i]);
            assert(batch.take(i + 1).drop_last() =~= batch.take(i));
            assert(batch.take(i + 1).last() == batch[i]);
            assert(store0.contents().union(batch_closure(batch.take(i))).union(
                closure_of(c),
            ) =~= store0.contents().union(batch_closure(batch.take(i + 1))));
            assert(rest@ =~= all.skip(i + 1));
            i = i + 1;
        }
    }
    proof {
        assert(batch.take(all.len() as int) =~= batch);
    }
}

} // verus!
