//! Counting the subsets of a finite set.

use vstd::prelude::*;
use vstd::set_lib::{lemma_len_subset, lemma_set_empty_equivalency_len};

verus! {

/// The set of all subsets of `u`.
pub open spec fn subsets<A>(u: Set<A>) -> Set<Set<A>> {
    Set::new(|s: Set<A>| s.subset_of(u))
}

/// A finite set has finitely many subsets.
pub proof fn lemma_subsets_finite<A>(u: Set<A>)
    requires
        u.finite(),
    ensures
        subsets(u).finite(),
    decreases u.len(),
{
    broadcast use lemma_set_empty_equivalency_len;

    if u.len() == 0 {
        assert forall|s: Set<A>| subsets(u).contains(s) <==> set![Set::<A>::empty()].contains(
            s,
        ) by {
            if s.subset_of(u) {
                assert(s =~= Set::<A>::empty());
            }
        }
        assert(subsets(u) =~= set![Set::<A>::empty()]);
    } else {
        let x = u.choose();
        let rest = u.remove(x);
        lemma_subsets_finite(rest);
        let without = subsets(rest);
        let put = |s: Set<A>| s.insert(x);
        let with = without.map(put);
        without.lemma_map_finite(put);
        assert forall|s: Set<A>| subsets(u).contains(s) <==> without.union(with).contains(s) by {
            if s.subset_of(u) {
                if s.contains(x) {
                    let t = s.remove(x);
                    assert(t.subset_of(rest));
                    assert(without.contains(t));
                    assert(s =~= put(t));
                    assert(with.contains(s));
                } else {
                    assert(s.subset_of(rest));
                }
            }
            if with.contains(s) {
                let t = choose|t: Set<A>| without.contains(t) && s == put(t);
                assert(t.subset_of(rest));
                assert(s.subset_of(u));
            }
        }
        assert(subsets(u) =~= without.union(with));
    }
}

/// Pairwise distinct subsets of a finite set are no more than the set has
/// subsets.
pub proof fn lemma_distinct_subsets_bounded<A>(u: Set<A>, ks: Seq<Set<A>>)
    requires
        u.finite(),
        ks.no_duplicates(),
        forall|i: int| 0 <= i < ks.len() ==> (#[trigger] ks[i]).subset_of(u),
    ensures
        subsets(u).finite(),
        ks.len() <= subsets(u).len(),
{
    lemma_subsets_finite(u);
    ks.unique_seq_to_set();
    assert(ks.to_set().subset_of(subsets(u))) by {
        assert forall|s: Set<A>| ks.to_set().contains(s) implies subsets(u).contains(s) by {
            let i = choose|i: int| 0 <= i < ks.len() && ks[i] == s;
            assert(ks[i].subset_of(u));
        }
    }
    lemma_len_subset(ks.to_set(), subsets(u));
}

} // verus!
