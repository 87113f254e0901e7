//! Bitonic sequences over a total preorder, and the three facts that make
//! the network sort: two oppositely sorted halves are bitonic, one
//! compare-exchange pass splits a bitonic sequence into two bitonic halves
//! with the first wholly before the second, and two sorted halves of which
//! the first is wholly before the second are sorted together.

use vstd::prelude::*;
use vstd::relations::sorted_by;
use vstd::seq_lib::to_multiset_contains;
use crate::exchange::{exchanged, pairwise};
use crate::order::{directed, total_preorder};
use crate::zero_one::{
    both_halves, constant, cyclic_run, either_half, lemma_half_cleaner, lemma_peak, lemma_valley,
};

verus! {

/// Whatever satisfies `p` is followed, in `le`, only by what satisfies `p`.
pub open spec fn up_closed<T>(p: spec_fn(T) -> bool, le: spec_fn(T, T) -> bool) -> bool {
    forall|a: T, b: T| #[trigger] le(a, b) && p(a) ==> p(b)
}

/// Where in `s` the predicate `p` holds.
pub open spec fn marks<T>(s: Seq<T>, p: spec_fn(T) -> bool) -> Seq<bool> {
    Seq::new(s.len(), |k: int| p(s[k]))
}

/// `s` rises and then falls, or is a rotation of such a sequence: every
/// upward closed set of elements occupies one cyclic run of positions.
pub open spec fn bitonic<T>(s: Seq<T>, le: spec_fn(T, T) -> bool) -> bool {
    forall|p: spec_fn(T) -> bool| up_closed(p, le) ==> cyclic_run(#[trigger] marks(s, p))
}

/// Every element of `lo` may stand before every element of `hi`.
pub open spec fn all_before<T>(lo: Seq<T>, hi: Seq<T>, le: spec_fn(T, T) -> bool) -> bool {
    forall|x: int, y: int| 0 <= x < lo.len() && 0 <= y < hi.len() ==> #[trigger] le(lo[x], hi[y])
}

/// A total preorder read in either direction is a total preorder.
pub proof fn lemma_directed_total_preorder<T>(le: spec_fn(T, T) -> bool, up: bool)
    requires
        total_preorder(le),
    ensures
        total_preorder(directed(le, up)),
{
    let r = directed(le, up);
    assert forall|x: T, y: T| #[trigger] r(x, y) || #[trigger] r(y, x) by {
        assert(le(x, y) || le(y, x));
    }
    assert forall|x: T, y: T, z: T| #[trigger] r(x, y) && #[trigger] r(y, z) implies r(x, z) by {
        if up {
            assert(le(x, y) && le(y, z));
        } else {
            assert(le(z, y) && le(y, x));
        }
    }
}

/// An ascending sequence followed by a descending one is bitonic, in
/// whichever direction the order is read.
pub proof fn lemma_sorted_halves_bitonic<T>(
    a: Seq<T>,
    c: Seq<T>,
    le: spec_fn(T, T) -> bool,
    up: bool,
)
    requires
        sorted_by(a, directed(le, true)),
        sorted_by(c, directed(le, false)),
    ensures
        bitonic(a + c, directed(le, up)),
{
    let r = directed(le, up);
    let asc = directed(le, true);
    let desc = directed(le, false);
    assert forall|p: spec_fn(T) -> bool| up_closed(p, r) implies cyclic_run(
        #[trigger] marks(a + c, p),
    ) by {
        let ma = marks(a, p);
        let mc = marks(c, p);
        assert(marks(a + c, p) =~= ma + mc);
        if up {
            assert forall|i: int, j: int| 0 <= i < j < ma.len() && #[trigger] ma[i] implies #[trigger] ma[j] by {
                assert(asc(a[i], a[j]));
                assert(r(a[i], a[j]));
            }
            assert forall|i: int, j: int| 0 <= i < j < mc.len() && #[trigger] mc[j] implies #[trigger] mc[i] by {
                assert(desc(c[i], c[j]));
                assert(r(c[j], c[i]));
            }
            lemma_peak(ma, mc);
        } else {
            assert forall|i: int, j: int| 0 <= i < j < ma.len() && #[trigger] ma[j] implies #[trigger] ma[i] by {
                assert(asc(a[i], a[j]));
                assert(r(a[j], a[i]));
            }
            assert forall|i: int, j: int| 0 <= i < j < mc.len() && #[trigger] mc[i] implies #[trigger] mc[j] by {
                assert(desc(c[i], c[j]));
                assert(r(c[i], c[j]));
            }
            lemma_valley(ma, mc);
        }
    }
}

/// What one compare-exchange pass does to the positions where an upward
/// closed predicate holds.
pub proof fn lemma_exchange_marks<T>(
    s: Seq<T>,
    lo: Seq<T>,
    hi: Seq<T>,
    le: spec_fn(T, T) -> bool,
    p: spec_fn(T) -> bool,
)
    requires
        s.len() == 2 * lo.len(),
        exchanged(s.take(lo.len() as int), s.skip(lo.len() as int), lo, hi),
        pairwise(le, lo, hi, lo.len() as int),
        bitonic(s, le),
        up_closed(p, le),
    ensures
        cyclic_run(marks(lo, p)),
        cyclic_run(marks(hi, p)),
        constant(marks(lo, p), false) || constant(marks(hi, p), true),
{
    let m = lo.len() as int;
    let first = s.take(m);
    let second = s.skip(m);
    let b = marks(s, p);
    lemma_half_cleaner(b, m);
    assert forall|k: int| 0 <= k < m implies p(lo[k]) == (p(s[k]) && p(s[k + m])) && p(hi[k]) == (
    p(s[k]) || p(s[k + m])) by {
        assert(first[k] == s[k] && second[k] == s[k + m]);
        assert(le(lo[k], hi[k]));
        assert((lo[k] == first[k] && hi[k] == second[k]) || (lo[k] == second[k] && hi[k]
            == first[k]));
    }
    assert(marks(lo, p) =~= both_halves(b, m));
    assert(marks(hi, p) =~= either_half(b, m));
}

/// One compare-exchange pass over the two halves of a bitonic sequence
/// leaves two bitonic halves, the first wholly before the second.
pub proof fn lemma_exchange_step<T>(s: Seq<T>, lo: Seq<T>, hi: Seq<T>, le: spec_fn(T, T) -> bool)
    requires
        total_preorder(le),
        s.len() == 2 * lo.len(),
        exchanged(s.take(lo.len() as int), s.skip(lo.len() as int), lo, hi),
        pairwise(le, lo, hi, lo.len() as int),
        bitonic(s, le),
    ensures
        bitonic(lo, le),
        bitonic(hi, le),
        all_before(lo, hi, le),
{
    assert forall|p: spec_fn(T) -> bool| up_closed(p, le) implies cyclic_run(
        #[trigger] marks(lo, p),
    ) by {
        lemma_exchange_marks(s, lo, hi, le, p);
    }
    assert forall|p: spec_fn(T) -> bool| up_closed(p, le) implies cyclic_run(
        #[trigger] marks(hi, p),
    ) by {
        lemma_exchange_marks(s, lo, hi, le, p);
    }
    assert forall|x: int, y: int| 0 <= x < lo.len() && 0 <= y < hi.len() implies #[trigger] le(
        lo[x],
        hi[y],
    ) by {
        let t = hi[y];
        let p = |z: T| !le(z, t);
        assert forall|a: T, b: T| #[trigger] le(a, b) && p(a) implies p(b) by {
            if le(b, t) {
                assert(le(a, b) && le(b, t));
            }
        }
        assert(up_closed(p, le));
        assert(le(t, t) || le(t, t));
        lemma_exchange_marks(s, lo, hi, le, p);
        assert(marks(hi, p)[y] == p(hi[y]));
        assert(marks(lo, p)[x] == p(lo[x]));
    }
}

/// Two sorted sequences, rearrangements of two sequences of which the first
/// is wholly before the second, are sorted when put one after the other.
pub proof fn lemma_join_sorted<T>(
    l: Seq<T>,
    r: Seq<T>,
    lo: Seq<T>,
    hi: Seq<T>,
    le: spec_fn(T, T) -> bool,
)
    requires
        sorted_by(l, le),
        sorted_by(r, le),
        l.to_multiset() == lo.to_multiset(),
        r.to_multiset() == hi.to_multiset(),
        all_before(lo, hi, le),
    ensures
        sorted_by(l + r, le),
{
    let s = l + r;
    assert forall|i: int, j: int| 0 <= i < j < s.len() implies #[trigger] le(s[i], s[j]) by {
        if j < l.len() {
            assert(le(l[i], l[j]));
        } else if i >= l.len() {
            assert(le(r[i - l.len()], r[j - l.len()]));
        } else {
            let a = l[i];
            let b = r[j - l.len()];
            assert(l.contains(a));
            assert(r.contains(b));
            to_multiset_contains(l, a);
            to_multiset_contains(lo, a);
            to_multiset_contains(r, b);
            to_multiset_contains(hi, b);
            let x = choose|x: int| 0 <= x < lo.len() && lo[x] == a;
            let y = choose|y: int| 0 <= y < hi.len() && hi[y] == b;
            assert(le(lo[x], hi[y]));
        }
    }
}

} // verus!
