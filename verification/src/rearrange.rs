//! Facts about sequences that hold the same elements in another order.

use vstd::multiset::Multiset;
use vstd::prelude::*;
use vstd::seq_lib::*;

verus! {

/// Filtering counts an element as often as the sequence holds it, if the
/// test lets it through, and not at all otherwise.
pub proof fn lemma_filter_counts<A>(s: Seq<A>, keep: spec_fn(A) -> bool, x: A)
    ensures
        s.filter(keep).to_multiset().count(x) == if keep(x) {
            s.to_multiset().count(x)
        } else {
            0
        },
    decreases s.len(),
{
    broadcast use group_to_multiset_ensures;

    if s.len() == 0 {
        s.lemma_filter_len(keep);
        assert(s.filter(keep) =~= Seq::<A>::empty());
        assert(s =~= Seq::<A>::empty());
        assert(Seq::<A>::empty().to_multiset().count(x) == 0) by {
            assert(!Seq::<A>::empty().contains(x));
        }
    } else {
        let shorter = s.drop_last();
        let last = s.last();
        assert(s =~= shorter.push(last));
        shorter.lemma_filter_push(last, keep);
        lemma_filter_counts(shorter, keep, x);
        to_multiset_build(shorter, last);
        if keep(last) {
            to_multiset_build(shorter.filter(keep), last);
        }
    }
}

/// Two orders of the same elements stay two orders of the same elements
/// when both are filtered by the same test.
pub proof fn lemma_filter_keeps_rearrangement<A>(a: Seq<A>, b: Seq<A>, keep: spec_fn(A) -> bool)
    requires
        a.to_multiset() == b.to_multiset(),
    ensures
        a.filter(keep).to_multiset() == b.filter(keep).to_multiset(),
{
    assert forall|x: A|
        a.filter(keep).to_multiset().count(x) == b.filter(keep).to_multiset().count(x) by {
        lemma_filter_counts(a, keep, x);
        lemma_filter_counts(b, keep, x);
    }
    assert(a.filter(keep).to_multiset() =~= b.filter(keep).to_multiset());
}

/// Two orders of the same elements stay two orders of the same elements
/// when one function is applied to each element of both.
pub proof fn lemma_map_keeps_rearrangement<A, B>(a: Seq<A>, b: Seq<A>, f: spec_fn(A) -> B)
    requires
        a.to_multiset() == b.to_multiset(),
    ensures
        a.map_values(f).to_multiset() == b.map_values(f).to_multiset(),
    decreases a.len(),
{
    broadcast use group_to_multiset_ensures;

    to_multiset_len(a);
    to_multiset_len(b);
    if a.len() == 0 {
        assert(a.map_values(f) =~= b.map_values(f));
    } else {
        let x = a.last();
        assert(a.contains(x));
        assert(b.to_multiset().count(x) > 0);
        assert(b.contains(x));
        let j = choose|j: int| 0 <= j < b.len() && b[j] == x;
        let shorter_a = a.drop_last();
        let shorter_b = b.remove(j);
        assert(shorter_a =~= a.remove(a.len() - 1));
        to_multiset_remove(a, a.len() - 1);
        to_multiset_remove(b, j);
        lemma_map_keeps_rearrangement(shorter_a, shorter_b, f);
        assert(a.map_values(f) =~= shorter_a.map_values(f).push(f(x)));
        assert(shorter_b.map_values(f).len() == b.len() - 1);
        assert(b.map_values(f) =~= shorter_b.map_values(f).insert(j, f(x)));
        to_multiset_build(shorter_a.map_values(f), f(x));
        to_multiset_insert(shorter_b.map_values(f), j, f(x));
    }
}

/// Two orders of the same elements are equally long.
pub proof fn lemma_rearrangement_keeps_length<A>(a: Seq<A>, b: Seq<A>)
    requires
        a.to_multiset() == b.to_multiset(),
    ensures
        a.len() == b.len(),
{
    to_multiset_len(a);
    to_multiset_len(b);
}

} // verus!
