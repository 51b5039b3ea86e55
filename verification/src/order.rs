//! Ordering facts shared by the query paths.
//!
//! Query results are sorted descending by timestamp, with the record id as
//! tie-break. Such an order ties only equal records (ids are unique), so a
//! sorted arrangement of a result set is unique; the lemma below captures
//! that and lets the executable sorts meet contracts phrased with
//! `Seq::sort_by`.

use vstd::prelude::*;
use vstd::relations::sorted_by;

verus! {

/// Prepending one element adds exactly it to a sequence's multiset.
pub proof fn lemma_to_multiset_prepend<A>(s: Seq<A>, x: A)
    ensures
        (seq![x] + s).to_multiset() == s.to_multiset().insert(x),
{
    broadcast use vstd::seq_lib::group_to_multiset_ensures;
    broadcast use vstd::multiset::group_multiset_axioms;

    assert(seq![x] =~= Seq::<A>::empty().push(x));
    vstd::seq_lib::lemma_multiset_commutative(seq![x], s);
    assert(Seq::<A>::empty().push(x).to_multiset() =~= vstd::multiset::Multiset::<
        A,
    >::empty().insert(x));
    assert((seq![x] + s).to_multiset() =~= s.to_multiset().insert(x));
}

/// Two sequences sorted by the same order and holding the same elements
/// are equal, provided the order is total on those elements and ties only
/// values that are equal.
pub proof fn lemma_sorted_unique_by<A>(x: Seq<A>, y: Seq<A>, leq: spec_fn(A, A) -> bool)
    requires
        sorted_by(x, leq),
        sorted_by(y, leq),
        x.to_multiset() == y.to_multiset(),
        forall|a: A, b: A| #![trigger leq(a, b)]
            x.contains(a) && x.contains(b) ==> leq(a, b) || leq(b, a),
        forall|a: A, b: A| #![trigger leq(a, b), leq(b, a)]
            x.contains(a) && x.contains(b) && leq(a, b) && leq(b, a) ==> a == b,
    ensures
        x == y,
    decreases x.len(),
{
    broadcast use vstd::seq_lib::group_to_multiset_ensures;
    broadcast use vstd::multiset::group_multiset_axioms;

    if x.len() == 0 {
        assert(x.to_multiset().len() == 0);
        assert(y.len() == y.to_multiset().len());
        assert(x =~= y);
    } else {
        assert(x.contains(x[0]));
        assert(y.to_multiset().contains(x[0]));
        assert(y.contains(x[0]));
        assert(y.contains(y[0]));
        assert(x.to_multiset().contains(y[0]));
        assert(x.contains(y[0]));
        let j = choose|j: int| 0 <= j < y.len() && y[j] == x[0];
        if j > 0 {
            assert(leq(y[0], y[j]));
        }
        let i = choose|i: int| 0 <= i < x.len() && x[i] == y[0];
        if i > 0 {
            assert(leq(x[0], x[i]));
        }
        assert(x[0] == y[0]);

        let xs = x.drop_first();
        let ys = y.drop_first();
        assert(x.remove(0) =~= xs);
        assert(y.remove(0) =~= ys);
        assert(xs.to_multiset() == x.to_multiset().remove(x[0]));
        assert(ys.to_multiset() == y.to_multiset().remove(y[0]));
        assert(sorted_by(xs, leq)) by {
            assert forall|a: int, b: int| 0 <= a < b < xs.len() implies leq(xs[a], xs[b]) by {
                assert(xs[a] == x[a + 1]);
                assert(xs[b] == x[b + 1]);
            }
        }
        assert(sorted_by(ys, leq)) by {
            assert forall|a: int, b: int| 0 <= a < b < ys.len() implies leq(ys[a], ys[b]) by {
                assert(ys[a] == y[a + 1]);
                assert(ys[b] == y[b + 1]);
            }
        }
        assert forall|a: A| #[trigger] xs.contains(a) implies x.contains(a) by {
            let k = choose|k: int| 0 <= k < xs.len() && xs[k] == a;
            assert(x[k + 1] == a);
        }
        lemma_sorted_unique_by(xs, ys, leq);
        assert forall|k: int| 0 <= k < x.len() implies x[k] == y[k] by {
            if k > 0 {
                assert(x[k] == xs[k - 1]);
                assert(y[k] == ys[k - 1]);
            }
        }
        assert(x =~= y);
    }
}

} // verus!
