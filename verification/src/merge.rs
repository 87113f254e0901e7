//! The bitonic merger: turns a bitonic range into a sorted one.

use vstd::prelude::*;
use vstd::relations::sorted_by;
use vstd::seq_lib::lemma_multiset_commutative;
use rayon::iter::{IndexedParallelIterator, ParallelIterator};
use rayon::slice::ParallelSliceMut;
use crate::bitonic::{
    all_before, bitonic, lemma_directed_total_preorder, lemma_exchange_step, lemma_join_sorted,
};
use crate::exchange::{
    bitonic_compare, exchanged, kept_in_order, lemma_exchanged_mirror, lemma_exchanged_multiset,
    pairwise,
};
use crate::length::zero_or_pow2;
use crate::order::{callable, directed, pred_follows};
use crate::threshold::{MIN_COMPARE_CHUNKS, MIN_PARALLEL_MERGE};

verus! {

/// What a range must be for the merger to sort it: of an accepted length and
/// bitonic in every order that the predicate decides by.
pub open spec fn merge_ready<T, F: Fn(&T, &T) -> bool>(s: Seq<T>, by: &F, up: bool) -> bool {
    &&& callable(by)
    &&& zero_or_pow2(s.len())
    &&& forall|le: spec_fn(T, T) -> bool| #[trigger]
        pred_follows(by, le) ==> bitonic(s, directed(le, up))
}

/// `after` holds the elements of `before`, sorted in the given direction by
/// every order that the predicate decides by.
pub open spec fn arranged<T, F: Fn(&T, &T) -> bool>(
    before: Seq<T>,
    after: Seq<T>,
    by: &F,
    up: bool,
) -> bool {
    &&& after.len() == before.len()
    &&& after.to_multiset() == before.to_multiset()
    &&& forall|le: spec_fn(T, T) -> bool| #[trigger]
        pred_follows(by, le) ==> sorted_by(after, directed(le, up))
}

/// After one compare-exchange pass over the halves of a range that was ready
/// to be merged, each half is ready to be merged, and the first is wholly
/// before the second in the direction of the merge.
pub proof fn lemma_pass<T, F: Fn(&T, &T) -> bool>(
    s: Seq<T>,
    lo: Seq<T>,
    hi: Seq<T>,
    by: &F,
    up: bool,
)
    requires
        merge_ready(s, by, up),
        s.len() == 2 * lo.len(),
        exchanged(s.take(lo.len() as int), s.skip(lo.len() as int), lo, hi),
        forall|le: spec_fn(T, T) -> bool| #[trigger]
            pred_follows(by, le) ==> if up {
                pairwise(le, lo, hi, lo.len() as int)
            } else {
                pairwise(le, hi, lo, lo.len() as int)
            },
    ensures
        merge_ready(lo, by, up),
        merge_ready(hi, by, up),
        (lo + hi).to_multiset() == s.to_multiset(),
        forall|le: spec_fn(T, T) -> bool| #[trigger]
            pred_follows(by, le) ==> all_before(lo, hi, directed(le, up)),
{
    let m = lo.len() as int;
    assert(s =~= s.take(m) + s.skip(m));
    lemma_exchanged_multiset(s.take(m), s.skip(m), lo, hi);
    assert(s.len() >= 2 ==> zero_or_pow2(lo.len()));
    assert forall|le: spec_fn(T, T) -> bool| #[trigger] pred_follows(by, le) implies bitonic(
        lo,
        directed(le, up),
    ) && bitonic(hi, directed(le, up)) && all_before(lo, hi, directed(le, up)) by {
        let r = directed(le, up);
        lemma_directed_total_preorder(le, up);
        assert forall|k: int| 0 <= k < m implies #[trigger] r(lo[k], hi[k]) by {
            if up {
                assert(pairwise(le, lo, hi, m));
                assert(le(lo[k], hi[k]));
            } else {
                assert(pairwise(le, hi, lo, m));
                assert(le(hi[k], lo[k]));
            }
        }
        lemma_exchange_step(s, lo, hi, r);
    }
}

/// Two merged halves make a merged whole.
pub proof fn lemma_merged<T, F: Fn(&T, &T) -> bool>(
    s: Seq<T>,
    lo: Seq<T>,
    hi: Seq<T>,
    l: Seq<T>,
    r: Seq<T>,
    by: &F,
    up: bool,
)
    requires
        (lo + hi).to_multiset() == s.to_multiset(),
        lo.len() + hi.len() == s.len(),
        forall|le: spec_fn(T, T) -> bool| #[trigger]
            pred_follows(by, le) ==> all_before(lo, hi, directed(le, up)),
        arranged(lo, l, by, up),
        arranged(hi, r, by, up),
    ensures
        arranged(s, l + r, by, up),
{
    lemma_multiset_commutative(lo, hi);
    lemma_multiset_commutative(l, r);
    assert forall|le: spec_fn(T, T) -> bool| #[trigger] pred_follows(by, le) implies sorted_by(
        l + r,
        directed(le, up),
    ) by {
        lemma_join_sorted(l, r, lo, hi, directed(le, up));
    }
}

/// Sorts a bitonic range in the given direction, in parallel where the range
/// is long enough to repay it.
pub fn bitonic_merge_by<T: Send, F: Send + Sync + Fn(&T, &T) -> bool>(
    slice: &mut [T],
    by: &F,
    up: bool,
)
    requires
        merge_ready(old(slice)@, by, up),
    ensures
        arranged(old(slice)@, final(slice)@, by, up),
{
    if slice.len() < MIN_PARALLEL_MERGE {
        serial_bitonic_merge_by(slice, by, up);
    } else {
        parallel_bitonic_merge_by(slice, by, up);
    }
}

/// Sorts a bitonic range in the given direction, depth first on one thread.
pub fn serial_bitonic_merge_by<T: Send, F: Send + Sync + Fn(&T, &T) -> bool>(
    slice: &mut [T],
    by: &F,
    up: bool,
)
    requires
        merge_ready(old(slice)@, by, up),
    ensures
        arranged(old(slice)@, final(slice)@, by, up),
    decreases old(slice)@.len(),
{
    if slice.len() < 2 {
        return ;
    }
    let half: usize = slice.len() / 2;
    let (left, right) = slice.split_at_mut(half);
    if up {
        bitonic_compare(left, right, by);
    } else {
        bitonic_compare(right, left, by);
    }
    let ghost lo = left@;
    let ghost hi = right@;
    proof {
        let s = old(slice)@;
        assert(s.take(half as int) =~= s.subrange(0, half as int));
        assert(s.skip(half as int) =~= s.subrange(half as int, s.len() as int));
        if !up {
            lemma_exchanged_mirror(s.skip(half as int), s.take(half as int), hi, lo);
        }
        lemma_pass(old(slice)@, lo, hi, by, up);
    }
    serial_bitonic_merge_by(left, by, up);
    serial_bitonic_merge_by(right, by, up);
    proof {
        lemma_merged(old(slice)@, lo, hi, left@, right@, by, up);
    }
}

/// Sorts a bitonic range of two elements or more in the given direction:
/// the compare-exchange pass runs in chunks on the thread pool, and the two
/// halves are merged as a fork-join pair.
pub fn parallel_bitonic_merge_by<T: Send, F: Send + Sync + Fn(&T, &T) -> bool>(
    slice: &mut [T],
    by: &F,
    up: bool,
)
    requires
        merge_ready(old(slice)@, by, up),
        old(slice)@.len() >= 2,
    ensures
        arranged(old(slice)@, final(slice)@, by, up),
{
    let half: usize = slice.len() / 2;
    let (left, right) = slice.split_at_mut(half);
    if up {
        chunked_compare(left, right, by);
    } else {
        chunked_compare(right, left, by);
    }
    let ghost lo = left@;
    let ghost hi = right@;
    proof {
        let s = old(slice)@;
        assert(s.take(half as int) =~= s.subrange(0, half as int));
        assert(s.skip(half as int) =~= s.subrange(half as int, s.len() as int));
        if !up {
            lemma_exchanged_mirror(s.skip(half as int), s.take(half as int), hi, lo);
        }
        lemma_pass(old(slice)@, lo, hi, by, up);
    }
    join_merges(left, right, by, up);
    proof {
        lemma_merged(old(slice)@, lo, hi, left@, right@, by, up);
    }
}

/// Calls rayon's `par_chunks_mut` on both ranges, then `zip` and
/// `for_each`, with `bitonic_compare` as the work on each pair of pieces.
/// Taken on trust: that the two ranges are cut into pieces of
/// `MIN_COMPARE_CHUNKS` elements, the last one possibly shorter, which cover
/// the ranges and do not overlap, that the pieces are paired in order, and
/// that each pair gets its pass once before the call returns. The pass works
/// position by position, so the contract is that of one `bitonic_compare`
/// over the whole ranges.
#[verifier::external_body]
fn chunked_compare<T: Send, F: Send + Sync + Fn(&T, &T) -> bool>(
    left: &mut [T],
    right: &mut [T],
    by: &F,
)
    requires
        old(left)@.len() == old(right)@.len(),
        callable(by),
    ensures
        exchanged(old(left)@, old(right)@, final(left)@, final(right)@),
        forall|le: spec_fn(T, T) -> bool| #[trigger]
            pred_follows(by, le) ==> pairwise(
                le,
                final(left)@,
                final(right)@,
                old(left)@.len() as int,
            ),
        forall|le: spec_fn(T, T) -> bool| #[trigger]
            pred_follows(by, le) ==> kept_in_order(
                le,
                old(left)@,
                old(right)@,
                final(left)@,
                final(right)@,
                old(left)@.len() as int,
            ),
{
    left.par_chunks_mut(MIN_COMPARE_CHUNKS).zip(right.par_chunks_mut(MIN_COMPARE_CHUNKS)).for_each(
        |(left_chunk, right_chunk)| bitonic_compare(left_chunk, right_chunk, by),
    );
}

/// Calls rayon's `join` with two tasks: the merge of `left` and the merge
/// of `right`, both in the direction `up`. Taken on trust: that `join` runs
/// each task once, to its end, and returns only when both are done, so that
/// on return the contract of `bitonic_merge_by` holds of either half. The
/// parallel merger's recursion passes through this call; that it ends rests
/// on the halving of the ranges and is not proved.
#[verifier::external_body]
fn join_merges<T: Send, F: Send + Sync + Fn(&T, &T) -> bool>(
    left: &mut [T],
    right: &mut [T],
    by: &F,
    up: bool,
)
    requires
        merge_ready(old(left)@, by, up),
        merge_ready(old(right)@, by, up),
    ensures
        arranged(old(left)@, final(left)@, by, up),
        arranged(old(right)@, final(right)@, by, up),
{
    rayon::join(|| bitonic_merge_by(left, by, up), || bitonic_merge_by(right, by, up));
}

} // verus!
