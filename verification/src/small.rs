//! The sequential comparison sort that short ranges fall back to.

use vstd::prelude::*;
use std::cmp::Ordering;
use crate::merge::arranged;
use crate::order::{callable, directed, orderly, pred_follows};

verus! {

/// The three-way verdict of the relation `r` on `a` and `b`: `Less` where
/// `a` is strictly before `b`, `Greater` where it is strictly after, `Equal`
/// where the two are tied.
pub open spec fn verdict<T>(r: spec_fn(T, T) -> bool, a: T, b: T) -> Ordering {
    if !r(b, a) {
        Ordering::Less
    } else if !r(a, b) {
        Ordering::Greater
    } else {
        Ordering::Equal
    }
}

/// Compares two elements by the predicate read in the given direction:
/// as it is when `up`, mirrored otherwise.
pub fn directed_verdict<T, F: Fn(&T, &T) -> bool>(
    precedes: &F,
    up: bool,
    left: &T,
    right: &T,
) -> (o: Ordering)
    requires
        callable(precedes),
    ensures
        forall|le: spec_fn(T, T) -> bool| #[trigger]
            pred_follows(precedes, le) ==> o == verdict(directed(le, up), *left, *right),
{
    let (a, b) = if up {
        (left, right)
    } else {
        (right, left)
    };
    if precedes(a, b) {
        Ordering::Less
    } else if precedes(b, a) {
        Ordering::Greater
    } else {
        Ordering::Equal
    }
}

/// Calls std's `sort_unstable_by` on the slice, with `directed_verdict` as
/// the comparison. Taken on trust: that the slice is rearranged in place,
/// keeping its elements, so that it is sorted by that comparison. The
/// predicate must decide by a total preorder, since std may panic on a
/// comparison that is no total order.
#[verifier::external_body]
pub(crate) fn small_sort<T, F: Fn(&T, &T) -> bool>(slice: &mut [T], by: &F, up: bool)
    requires
        orderly(by),
    ensures
        arranged(old(slice)@, final(slice)@, by, up),
{
    slice.sort_unstable_by(|left, right| directed_verdict(by, up, left, right));
}

} // verus!
