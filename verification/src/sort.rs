//! The recursive sorter: sorts the two halves of a range in opposite
//! directions, which makes the range bitonic, and merges it.

use vstd::prelude::*;
use vstd::seq_lib::lemma_multiset_commutative;
use crate::bitonic::{bitonic, lemma_sorted_halves_bitonic};
use crate::length::zero_or_pow2;
use crate::merge::{arranged, bitonic_merge_by};
use crate::order::{directed, orderly, pred_follows};
use crate::small::small_sort;
use crate::threshold::MIN_SORT;

verus! {

/// Sorts a range of an accepted length in the given direction: ranges of
/// one element or none are left alone, ranges shorter than `MIN_SORT` go to
/// a sequential comparison sort, and longer ones are halved, the halves
/// sorted in opposite directions as a fork-join pair and then merged.
pub fn do_bitonic_sort_by<T: Send, F: Send + Sync + Fn(&T, &T) -> bool>(
    slice: &mut [T],
    by: &F,
    up: bool,
)
    requires
        orderly(by),
        zero_or_pow2(old(slice)@.len()),
    ensures
        arranged(old(slice)@, final(slice)@, by, up),
        old(slice)@.len() <= 1 ==> final(slice)@ == old(slice)@,
{
    if slice.len() <= 1 {
        return ;
    } else if slice.len() < MIN_SORT {
        small_sort(slice, by, up);
        return ;
    }
    let half: usize = slice.len() / 2;
    let (left, right) = slice.split_at_mut(half);
    let ghost first = left@;
    let ghost second = right@;
    join_sorts(left, right, by);
    proof {
        assert(old(slice)@ =~= first + second);
        lemma_multiset_commutative(first, second);
        lemma_multiset_commutative(left@, right@);
        assert forall|le: spec_fn(T, T) -> bool| #[trigger] pred_follows(by, le) implies bitonic(
            left@ + right@,
            directed(le, up),
        ) by {
            lemma_sorted_halves_bitonic(left@, right@, le, up);
        }
    }
    bitonic_merge_by(slice, by, up);
}

/// Calls rayon's `join` with two tasks: the ascending sort of `left` and
/// the descending sort of `right`. Taken on trust: that `join` runs each
/// task once, to its end, and returns only when both are done, so that on
/// return the contract of `do_bitonic_sort_by` holds of either half. The
/// sorter's recursion passes through this call; that it ends rests on the
/// halving of the ranges and is not proved.
#[verifier::external_body]
fn join_sorts<T: Send, F: Send + Sync + Fn(&T, &T) -> bool>(
    left: &mut [T],
    right: &mut [T],
    by: &F,
)
    requires
        orderly(by),
        zero_or_pow2(old(left)@.len()),
        zero_or_pow2(old(right)@.len()),
    ensures
        arranged(old(left)@, final(left)@, by, true),
        arranged(old(right)@, final(right)@, by, false),
{
    rayon::join(|| do_bitonic_sort_by(left, by, true), || do_bitonic_sort_by(right, by, false));
}

} // verus!
