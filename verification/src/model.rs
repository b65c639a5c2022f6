//! Mathematical model of itemset expansion.
//!
//! An itemset is modelled as a finite `Set<u8>` of item identifiers.  The
//! expansion of one itemset records the itemset itself together with every
//! non-empty subset of it; a batch shares one store, so the final store holds
//! the union of the expansions of all input itemsets.

use vstd::prelude::*;

verus! {

broadcast use vstd::set::group_set_axioms, vstd::seq::group_seq_axioms,
    vstd::seq_lib::group_seq_lib_default, vstd::set_lib::group_set_lib_default;

/// Everything recorded when one itemset `c` is fully expanded: `c` itself
/// together with every non-empty subset of `c`.  (For an empty `c` this is
/// just `{c}`: expansion always records the itemset's own key.)
pub open spec fn closure_of(c: Set<u8>) -> Set<Set<u8>> {
    Set::new(|s: Set<u8>| s.finite() && s.subset_of(c) && (s == c || s.len() >= 1))
}

/// A family of itemsets is downward closed when it holds every non-empty
/// subset of each of its members.
pub open spec fn downward_closed(ss: Set<Set<u8>>) -> bool {
    forall|c: Set<u8>, s: Set<u8>|
        #![trigger ss.contains(c), s.subset_of(c)]
        ss.contains(c) && s.finite() && s.subset_of(c) && s.len() >= 1 ==> ss.contains(s)
}

/// A well-formed family: finitely many itemsets, each itself finite.
pub open spec fn contents_wf(ss: Set<Set<u8>>) -> bool {
    &&& ss.finite()
    &&& forall|s: Set<u8>| #[trigger] ss.contains(s) ==> s.finite()
}

/// The union of the expansions of every itemset of a batch.
pub open spec fn batch_closure(batch: Seq<Set<u8>>) -> Set<Set<u8>>
    decreases batch.len(),
{
    if batch.len() == 0 {
        Set::empty()
    } else {
        batch_closure(batch.drop_last()).union(closure_of(batch.last()))
    }
}

/// The union of the expansions of the children of `c` reached by removing one
/// of the first `k` elements listed in `v`.
pub open spec fn child_closures(c: Set<u8>, v: Seq<u8>, k: int) -> Set<Set<u8>>
    decreases k,
{
    if k <= 0 {
        Set::empty()
    } else {
        child_closures(c, v, k - 1).union(closure_of(c.remove(v[k - 1])))
    }
}

/// The expansion of a single itemset is itself downward closed.
pub proof fn lemma_closure_downward_closed(c: Set<u8>)
    ensures
        downward_closed(closure_of(c)),
{
    assert forall|s1: Set<u8>, s2: Set<u8>|
        closure_of(c).contains(s1) && s2.finite() && s2.subset_of(s1) && s2.len() >= 1
        implies closure_of(c).contains(s2) by {
        assert(s2.subset_of(c));
    }
}

pub proof fn lemma_dc_union(a: Set<Set<u8>>, b: Set<Set<u8>>)
    requires
        downward_closed(a),
        downward_closed(b),
    ensures
        downward_closed(a.union(b)),
{
}

/// An itemset with at most one element has no proper non-empty subsets, so
/// its expansion is just itself.
pub proof fn lemma_closure_small(c: Set<u8>)
    requires
        c.finite(),
        c.len() <= 1,
    ensures
        closure_of(c) == Set::empty().insert(c),
{
    assert forall|s: Set<u8>| closure_of(c).contains(s) implies s == c by {
        if s != c {
            assert(s.len() >= 1);
            let e = s.choose();
            assert(s.contains(e));
            assert(c.contains(e));
            assert(c.len() == 1) by {
                if c.len() == 0 {
                    assert(c =~= Set::empty());
                }
            }
            // every member of c equals e, hence s and c are both {e}
            assert forall|x: u8| c.contains(x) implies x == e by {
                if x != e {
                    assert(c.remove(e).contains(x));
                    assert(c.remove(e).len() == 0);
                    assert(c.remove(e) =~= Set::empty());
                }
            }
            assert forall|x: u8| s.contains(x) implies x == e by {
                assert(c.contains(x));
            }
            assert(s =~= c);
        }
    }
    assert(closure_of(c) =~= Set::empty().insert(c));
}

/// Inserting an itemset with at most one element keeps a family downward
/// closed.
pub proof fn lemma_dc_insert_small(ss: Set<Set<u8>>, c: Set<u8>)
    requires
        downward_closed(ss),
        c.finite(),
        c.len() <= 1,
    ensures
        downward_closed(ss.insert(c)),
{
    lemma_closure_small(c);
    assert forall|c1: Set<u8>, s: Set<u8>|
        ss.insert(c).contains(c1) && s.finite() && s.subset_of(c1) && s.len() >= 1
        implies ss.insert(c).contains(s) by {
        if c1 == c {
            assert(closure_of(c).contains(s));
            assert(s == c);
        } else {
            assert(ss.contains(c1));
        }
    }
}

/// In a downward-closed family, every member's full expansion is already
/// present.
pub proof fn lemma_closure_of_member(ss: Set<Set<u8>>, c: Set<u8>)
    requires
        downward_closed(ss),
        ss.contains(c),
        c.finite(),
        c.len() >= 1,
    ensures
        closure_of(c).subset_of(ss),
{
    assert forall|s: Set<u8>| closure_of(c).contains(s) implies ss.contains(s) by {
        if s == c {
        } else {
            assert(s.len() >= 1 && s.subset_of(c) && s.finite());
        }
    }
}

/// The expansion of a finite itemset is a finite family.
pub proof fn lemma_closure_finite(c: Set<u8>)
    requires
        c.finite(),
    ensures
        closure_of(c).finite(),
    decreases c.len(),
{
    if c.len() == 0 {
        assert(c =~= Set::empty());
        assert forall|s: Set<u8>| closure_of(c).contains(s) implies s == c by {
            if s.len() >= 1 {
                let e = s.choose();
                assert(s.contains(e));
                assert(c.contains(e));
            }
            assert(s =~= c);
        }
        assert(closure_of(c) =~= Set::empty().insert(c));
    } else {
        let x = c.choose();
        assert(c.contains(x));
        let rest = c.remove(x);
        lemma_closure_finite(rest);
        let base = closure_of(rest).insert(Set::empty());
        let lifted = base.map(|s: Set<u8>| s.insert(x));
        assert(base.finite());
        base.lemma_map_finite(|s: Set<u8>| s.insert(x));
        assert forall|s: Set<u8>| closure_of(c).contains(s) implies base.union(lifted).contains(
            s,
        ) by {
            if s.contains(x) {
                let s1 = s.remove(x);
                assert(s1.subset_of(rest));
                if s1.len() >= 1 {
                    assert(closure_of(rest).contains(s1));
                } else {
                    assert(s1 =~= Set::empty());
                }
                assert(base.contains(s1));
                assert(s1.insert(x) =~= s);
                assert(lifted.contains(s));
            } else {
                // s != c because x is in c but not in s
                assert(s != c);
                assert(s.len() >= 1);
                assert(s.subset_of(rest));
                assert(closure_of(rest).contains(s));
            }
        }
        assert(closure_of(c).subset_of(base.union(lifted)));
        vstd::set_lib::lemma_set_subset_finite(base.union(lifted), closure_of(c));
    }
}

/// Every child expansion is contained in the parent's expansion, provided the
/// parent has at least two elements.
pub proof fn lemma_child_closures_subset(c: Set<u8>, v: Seq<u8>, k: int)
    requires
        c.finite(),
        c.len() >= 2,
        0 <= k <= v.len(),
        forall|i: int| 0 <= i < k ==> c.contains(#[trigger] v[i]),
    ensures
        child_closures(c, v, k).subset_of(closure_of(c)),
    decreases k,
{
    if k > 0 {
        lemma_child_closures_subset(c, v, k - 1);
        let x = v[k - 1];
        assert(c.contains(x));
        assert(c.remove(x).len() == c.len() - 1);
        assert forall|s: Set<u8>| closure_of(c.remove(x)).contains(s) implies closure_of(
            c,
        ).contains(s) by {
            assert(s.subset_of(c));
            if s == c.remove(x) {
                assert(s.len() >= 1);
            }
        }
    }
}

/// Each individual child expansion is contained in the prefix union that
/// covers it.
pub proof fn lemma_child_closures_covers(c: Set<u8>, v: Seq<u8>, k: int, i: int)
    requires
        0 <= i < k <= v.len(),
    ensures
        closure_of(c.remove(v[i])).subset_of(child_closures(c, v, k)),
    decreases k,
{
    if i < k - 1 {
        lemma_child_closures_covers(c, v, k - 1, i);
    }
}

/// The decomposition at the heart of the expansion algorithm: for an itemset
/// with at least two elements, its expansion is exactly the itemset itself
/// plus the expansions of all children obtained by removing one element.
pub proof fn lemma_closure_decomposition(c: Set<u8>, v: Seq<u8>)
    requires
        c.finite(),
        c.len() >= 2,
        v.no_duplicates(),
        v.to_set() == c,
    ensures
        child_closures(c, v, v.len() as int).insert(c) == closure_of(c),
{
    let n = v.len() as int;
    assert(forall|i: int| 0 <= i < n ==> c.contains(#[trigger] v[i])) by {
        assert forall|i: int| 0 <= i < n implies c.contains(#[trigger] v[i]) by {
            assert(v.to_set().contains(v[i]));
        }
    }
    lemma_child_closures_subset(c, v, n);
    assert forall|s: Set<u8>| closure_of(c).contains(s) implies child_closures(
        c,
        v,
        n,
    ).insert(c).contains(s) by {
        if s != c {
            assert(s.len() >= 1);
            // s is a proper subset of c: some element of c is missing from s
            let d = c.difference(s);
            if d.len() == 0 {
                assert(d.finite()) by {
                    vstd::set_lib::lemma_set_subset_finite(c, d);
                }
                assert(d =~= Set::empty());
                assert forall|x: u8| c.contains(x) implies s.contains(x) by {
                    assert(!d.contains(x));
                }
                assert(s =~= c);
                assert(false);
            }
            assert(d.finite()) by {
                vstd::set_lib::lemma_set_subset_finite(c, d);
            }
            let x = d.choose();
            assert(d.contains(x));
            assert(c.contains(x) && !s.contains(x));
            assert(v.to_set().contains(x));
            assert(v.contains(x));
            let i = choose|i: int| 0 <= i < v.len() && v[i] == x;
            assert(s.subset_of(c.remove(x)));
            assert(closure_of(c.remove(x)).contains(s));
            lemma_child_closures_covers(c, v, n, i);
        }
    }
    assert(child_closures(c, v, n).insert(c) =~= closure_of(c));
}

/// Removing one element of an itemset shrinks its expansion, as long as the
/// child is still non-empty.
pub proof fn lemma_closure_shrink(c: Set<u8>, x: u8)
    requires
        c.finite(),
        c.len() >= 2,
        c.contains(x),
    ensures
        closure_of(c.remove(x)).subset_of(closure_of(c)),
{
    assert forall|s: Set<u8>| closure_of(c.remove(x)).contains(s) implies closure_of(c).contains(
        s,
    ) by {
        assert(s.subset_of(c));
        if s == c.remove(x) {
            assert(s.len() >= 1);
        }
    }
}

/// The image of a finite set under any function is finite and no larger.
pub proof fn lemma_map_len_le<A, B>(s: Set<A>, f: spec_fn(A) -> B)
    requires
        s.finite(),
    ensures
        s.map(f).finite(),
        s.map(f).len() <= s.len(),
    decreases s.len(),
{
    if s.len() == 0 {
        assert(s =~= Set::empty());
        assert(s.map(f) =~= Set::empty());
    } else {
        let a = s.choose();
        assert(s.contains(a));
        let rest = s.remove(a);
        lemma_map_len_le(rest, f);
        assert(s.map(f) =~= rest.map(f).insert(f(a))) by {
            assert forall|b: B| s.map(f).contains(b) implies rest.map(f).insert(f(a)).contains(
                b,
            ) by {
                let a0 = choose|a0: A| s.contains(a0) && b == f(a0);
                if a0 == a {
                } else {
                    assert(rest.contains(a0));
                    assert(rest.map(f).contains(b));
                }
            }
            assert forall|b: B| rest.map(f).insert(f(a)).contains(b) implies s.map(f).contains(
                b,
            ) by {
                if b == f(a) {
                    assert(s.contains(a));
                } else {
                    let a0 = choose|a0: A| rest.contains(a0) && b == f(a0);
                    assert(s.contains(a0));
                }
            }
        }
    }
}

/// The image of a finite set under an injective function has exactly the same
/// size.
pub proof fn lemma_map_len_injective<A, B>(s: Set<A>, f: spec_fn(A) -> B)
    requires
        s.finite(),
        forall|a1: A, a2: A|
            s.contains(a1) && s.contains(a2) && #[trigger] f(a1) == #[trigger] f(a2) ==> a1 == a2,
    ensures
        s.map(f).finite(),
        s.map(f).len() == s.len(),
    decreases s.len(),
{
    if s.len() == 0 {
        assert(s =~= Set::empty());
        assert(s.map(f) =~= Set::empty());
    } else {
        let a = s.choose();
        assert(s.contains(a));
        let rest = s.remove(a);
        lemma_map_len_injective(rest, f);
        assert(s.map(f) =~= rest.map(f).insert(f(a))) by {
            assert forall|b: B| s.map(f).contains(b) implies rest.map(f).insert(f(a)).contains(
                b,
            ) by {
                let a0 = choose|a0: A| s.contains(a0) && b == f(a0);
                if a0 == a {
                } else {
                    assert(rest.contains(a0));
                    assert(rest.map(f).contains(b));
                }
            }
            assert forall|b: B| rest.map(f).insert(f(a)).contains(b) implies s.map(f).contains(
                b,
            ) by {
                if b == f(a) {
                    assert(s.contains(a));
                } else {
                    let a0 = choose|a0: A| rest.contains(a0) && b == f(a0);
                    assert(s.contains(a0));
                }
            }
        }
        assert(!rest.map(f).contains(f(a))) by {
            if rest.map(f).contains(f(a)) {
                let a0 = choose|a0: A| rest.contains(a0) && f(a) == f(a0);
                assert(s.contains(a0));
                assert(a0 == a);
                assert(!rest.contains(a));
            }
        }
    }
}

/// The expansion of every batch is downward closed: this is the completeness
/// guarantee of the shared store.  Every non-empty subset of any recorded
/// itemset is itself recorded.
pub proof fn lemma_batch_closure_downward_closed(batch: Seq<Set<u8>>)
    ensures
        downward_closed(batch_closure(batch)),
    decreases batch.len(),
{
    if batch.len() == 0 {
    } else {
        lemma_batch_closure_downward_closed(batch.drop_last());
        lemma_closure_downward_closed(batch.last());
        lemma_dc_union(batch_closure(batch.drop_last()), closure_of(batch.last()));
    }
}

/// The expansion of a batch of finite itemsets is a well-formed family.
pub proof fn lemma_batch_closure_wf(batch: Seq<Set<u8>>)
    requires
        forall|i: int| 0 <= i < batch.len() ==> (#[trigger] batch[i]).finite(),
    ensures
        contents_wf(batch_closure(batch)),
    decreases batch.len(),
{
    if batch.len() == 0 {
    } else {
        lemma_batch_closure_wf(batch.drop_last());
        lemma_closure_finite(batch.last());
    }
}

/// The expansion of each batch member is contained in the batch expansion.
pub proof fn lemma_closure_in_batch(batch: Seq<Set<u8>>, i: int)
    requires
        0 <= i < batch.len(),
    ensures
        closure_of(batch[i]).subset_of(batch_closure(batch)),
    decreases batch.len(),
{
    if i < batch.len() - 1 {
        lemma_closure_in_batch(batch.drop_last(), i);
    } else {
        assert(batch[i] == batch.last());
    }
}

/// Appending one itemset to a batch adds exactly that itemset's expansion.
pub proof fn lemma_batch_closure_push(batch: Seq<Set<u8>>, c: Set<u8>)
    ensures
        batch_closure(batch.push(c)) == batch_closure(batch).union(closure_of(c)),
{
    assert(batch.push(c).drop_last() =~= batch);
    assert(batch.push(c).last() == c);
}

/// Duplicating one input itemset does not change the batch expansion: the
/// idempotence of the shared store.
pub proof fn lemma_batch_closure_duplicate(batch: Seq<Set<u8>>, i: int)
    requires
        0 <= i < batch.len(),
    ensures
        batch_closure(batch.push(batch[i])) == batch_closure(batch),
{
    lemma_batch_closure_push(batch, batch[i]);
    lemma_closure_in_batch(batch, i);
    assert(batch_closure(batch).union(closure_of(batch[i])) =~= batch_closure(batch));
}

} // verus!
