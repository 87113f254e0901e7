//! What two sorts of the same elements by the same keys have in common.

use vstd::prelude::*;
use std::cmp::Ordering;
use vstd::relations::{antisymmetric, sorted_by};
use crate::entry::{
    comparator_follows, key_order, lemma_key_order_total_preorder, natural_order, never_greater,
};
use crate::order::total_preorder;
use crate::ties::{lemma_sorted_tied, tied_throughout};

verus! {

/// Two arrangements of the same elements that are both sorted by key carry
/// equal keys at every position, where the keys' natural order is a total
/// order. So sorting by key what is sorted by key already moves no key.
pub proof fn lemma_sorted_keys_agree<T, K: Ord>(s1: Seq<T>, s2: Seq<T>, kf: spec_fn(T) -> K)
    requires
        s1.to_multiset() == s2.to_multiset(),
        sorted_by(s1, key_order(kf)),
        sorted_by(s2, key_order(kf)),
        total_preorder(natural_order::<K>()),
        antisymmetric(natural_order::<K>()),
    ensures
        s1.len() == s2.len(),
        forall|i: int| 0 <= i < s1.len() ==> kf(#[trigger] s1[i]) == kf(s2[i]),
{
    let n = natural_order::<K>();
    let r = key_order(kf);
    lemma_key_order_total_preorder::<T, K>(kf);
    lemma_sorted_tied(s1, s2, r);
    assert forall|i: int| 0 <= i < s1.len() implies kf(#[trigger] s1[i]) == kf(s2[i]) by {
        assert(r(s1[i], s2[i]) && r(s2[i], s1[i]));
        assert(n(kf(s1[i]), kf(s2[i])) && n(kf(s2[i]), kf(s1[i])));
    }
}

/// Sorting by a key and sorting by the comparator derived from that key
/// give the same order: the outcome of the sort by key is one on which the
/// comparator never finds an earlier element greater than a later one, and
/// the two outcomes differ at most in the order of elements whose keys tie.
pub proof fn lemma_key_sort_matches_comparator_sort<T, K: Ord, F: Fn(&T, &T) -> Ordering>(
    before: Seq<T>,
    by_key: Seq<T>,
    by_comparator: Seq<T>,
    kf: spec_fn(T) -> K,
    by: &F,
)
    requires
        total_preorder(natural_order::<K>()),
        comparator_follows(by, key_order(kf)),
        by_key.to_multiset() == before.to_multiset(),
        sorted_by(by_key, key_order(kf)),
        by_comparator.to_multiset() == before.to_multiset(),
        forall|le: spec_fn(T, T) -> bool| #[trigger]
            comparator_follows(by, le) ==> sorted_by(by_comparator, le),
    ensures
        never_greater(by, by_key),
        tied_throughout(key_order(kf), by_key, by_comparator),
{
    let le = key_order(kf);
    lemma_key_order_total_preorder::<T, K>(kf);
    assert forall|i: int, j: int, o: Ordering|
        0 <= i < j < by_key.len() && #[trigger] by.ensures((&by_key[i], &by_key[j]), o) implies o
        != Ordering::Greater by {
        assert(le(by_key[i], by_key[j]));
    }
    lemma_sorted_tied(by_key, by_comparator, le);
}

} // verus!
