//! The compare-exchange pass between two equally long ranges.

use vstd::prelude::*;
use vstd::seq_lib::{lemma_multiset_commutative, to_multiset_build};
use crate::order::{callable, pred_follows};

verus! {

/// Position by position, `(c, d)` holds the same two elements as `(a, b)`,
/// either in place or swapped.
pub open spec fn exchanged<T>(a: Seq<T>, b: Seq<T>, c: Seq<T>, d: Seq<T>) -> bool {
    &&& a.len() == b.len()
    &&& c.len() == a.len()
    &&& d.len() == a.len()
    &&& forall|k: int|
        0 <= k < a.len() ==> (#[trigger] c[k] == a[k] && d[k] == b[k]) || (c[k] == b[k] && d[k]
            == a[k])
}

/// At each of the first `n` positions, the element of `c` may stand before
/// that of `d`.
pub open spec fn pairwise<T>(le: spec_fn(T, T) -> bool, c: Seq<T>, d: Seq<T>, n: int) -> bool {
    forall|k: int| 0 <= k < n ==> #[trigger] le(c[k], d[k])
}

/// At each of the first `n` positions, a pair `(a, b)` that was in order by
/// `le` stands in `(c, d)` as it stood.
pub open spec fn kept_in_order<T>(
    le: spec_fn(T, T) -> bool,
    a: Seq<T>,
    b: Seq<T>,
    c: Seq<T>,
    d: Seq<T>,
    n: int,
) -> bool {
    forall|k: int| 0 <= k < n && #[trigger] le(a[k], b[k]) ==> c[k] == a[k] && d[k] == b[k]
}

/// A pass read with its two ranges in the other order is a pass too.
pub proof fn lemma_exchanged_mirror<T>(a: Seq<T>, b: Seq<T>, c: Seq<T>, d: Seq<T>)
    requires
        exchanged(a, b, c, d),
    ensures
        exchanged(b, a, d, c),
{
    assert forall|k: int| 0 <= k < b.len() implies (#[trigger] d[k] == b[k] && c[k] == a[k]) || (
    d[k] == a[k] && c[k] == b[k]) by {
        assert((c[k] == a[k] && d[k] == b[k]) || (c[k] == b[k] && d[k] == a[k]));
    }
}

/// A compare-exchange pass keeps the elements of the two ranges taken
/// together.
pub proof fn lemma_exchanged_multiset<T>(a: Seq<T>, b: Seq<T>, c: Seq<T>, d: Seq<T>)
    requires
        exchanged(a, b, c, d),
    ensures
        (c + d).to_multiset() == (a + b).to_multiset(),
    decreases a.len(),
{
    broadcast use vstd::multiset::group_multiset_axioms;

    if a.len() == 0 {
        assert(a + b =~= c + d);
    } else {
        let (a0, b0, c0, d0) = (a.drop_last(), b.drop_last(), c.drop_last(), d.drop_last());
        assert forall|k: int| 0 <= k < a0.len() implies (#[trigger] c0[k] == a0[k] && d0[k]
            == b0[k]) || (c0[k] == b0[k] && d0[k] == a0[k]) by {
            assert((c[k] == a[k] && d[k] == b[k]) || (c[k] == b[k] && d[k] == a[k]));
        }
        lemma_exchanged_multiset(a0, b0, c0, d0);
        let n = a.len() - 1;
        assert((c[n] == a[n] && d[n] == b[n]) || (c[n] == b[n] && d[n] == a[n]));
        assert(a =~= a0.push(a[n]));
        assert(b =~= b0.push(b[n]));
        assert(c =~= c0.push(c[n]));
        assert(d =~= d0.push(d[n]));
        to_multiset_build(a0, a[n]);
        to_multiset_build(b0, b[n]);
        to_multiset_build(c0, c[n]);
        to_multiset_build(d0, d[n]);
        lemma_multiset_commutative(a0, b0);
        lemma_multiset_commutative(c0, d0);
        lemma_multiset_commutative(a, b);
        lemma_multiset_commutative(c, d);
        assert(a0.to_multiset().add(b0.to_multiset()) == c0.to_multiset().add(d0.to_multiset()));
        assert forall|v: T| (c + d).to_multiset().count(v) == (a + b).to_multiset().count(v) by {
            assert(a0.to_multiset().add(b0.to_multiset()).count(v) == c0.to_multiset().add(
                d0.to_multiset(),
            ).count(v));
        }
        assert((c + d).to_multiset() =~= (a + b).to_multiset());
    }
}

/// One compare-exchange pass: for every index the two elements at that index
/// are put in order, the one that must precede going to `left`. A pair that
/// is in order already, tied elements included, is not touched; any other is
/// swapped.
pub fn bitonic_compare<T: Send, F: Send + Sync + Fn(&T, &T) -> bool>(
    left: &mut [T],
    right: &mut [T],
    by: &F,
)
    requires
        old(left)@.len() == old(right)@.len(),
        callable(by),
    ensures
        exchanged(old(left)@, old(right)@, final(left)@, final(right)@),
        forall|le: spec_fn(T, T) -> bool| #[trigger]
            pred_follows(by, le) ==> pairwise(le, final(left)@, final(right)@, old(left)@.len() as int),
        forall|le: spec_fn(T, T) -> bool| #[trigger]
            pred_follows(by, le) ==> kept_in_order(
                le,
                old(left)@,
                old(right)@,
                final(left)@,
                final(right)@,
                old(left)@.len() as int,
            ),
{
    let n: usize = left.len();
    let mut i: usize = 0;
    while i < n
        invariant
            i <= n,
            n == left@.len(),
            n == right@.len(),
            callable(by),
            exchanged(old(left)@, old(right)@, left@, right@),
            forall|k: int| i <= k < n ==> left@[k] == old(left)@[k] && right@[k] == old(right)@[k],
            forall|le: spec_fn(T, T) -> bool| #[trigger]
                pred_follows(by, le) ==> pairwise(le, left@, right@, i as int),
            forall|le: spec_fn(T, T) -> bool| #[trigger]
                pred_follows(by, le) ==> kept_in_order(
                    le,
                    old(left)@,
                    old(right)@,
                    left@,
                    right@,
                    i as int,
                ),
        decreases n - i,
    {
        let ghost before_left = left@;
        let ghost before_right = right@;
        let swap = by(&right[i], &left[i]);
        if swap {
            core::mem::swap(&mut left[i], &mut right[i]);
        }
        proof {
            assert forall|le: spec_fn(T, T) -> bool| #[trigger] pred_follows(by, le) implies pairwise(
                le,
                left@,
                right@,
                i + 1,
            ) && kept_in_order(le, old(left)@, old(right)@, left@, right@, i + 1) by {
                assert(pairwise(le, before_left, before_right, i as int));
                assert(kept_in_order(
                    le,
                    old(left)@,
                    old(right)@,
                    before_left,
                    before_right,
                    i as int,
                ));
                assert(le(before_left[i as int], before_right[i as int]) || le(
                    before_right[i as int],
                    before_left[i as int],
                ));
                assert forall|k: int| 0 <= k < i + 1 implies #[trigger] le(left@[k], right@[k]) by {
                    if k < i {
                        assert(le(before_left[k], before_right[k]));
                    }
                }
            }
        }
        i += 1;
    }
}

} // verus!
