//! The three public sorts: by the natural order, by a three-way comparator,
//! and by a key.

use vstd::prelude::*;
use vstd::relations::{antisymmetric, sorted_by};
use vstd::seq_lib::lemma_sorted_unique;
use vstd::std_specs::cmp::OrdSpec;
use std::cmp::Ordering;
use crate::length::{is_zero_or_pow2, zero_or_pow2};
use crate::order::{directed, pred_follows, total_preorder};
use crate::sort::do_bitonic_sort_by;
use crate::ties::{lemma_sorted_tied, tied_throughout};

verus! {

/// Why a sort was refused.
#[derive(Debug, Clone, Copy, PartialEq, Eq, Structural)]
pub enum SortError {
    /// The slice's length is neither zero nor a power of two.
    InvalidLength,
}

/// Every verdict of the comparator `by` agrees with the total preorder `le`:
/// `by(a, b)` is `Greater` exactly when `a` may not stand before `b`.
pub open spec fn comparator_follows<T, F: Fn(&T, &T) -> Ordering>(
    by: &F,
    le: spec_fn(T, T) -> bool,
) -> bool {
    &&& total_preorder(le)
    &&& forall|a: T, b: T, o: Ordering| #[trigger]
        by.ensures((&a, &b), o) ==> ((o == Ordering::Greater) == !le(a, b))
}

/// The comparator can be called on every pair of elements and decides by
/// some total preorder.
pub open spec fn valid_comparator<T, F: Fn(&T, &T) -> Ordering>(by: &F) -> bool {
    &&& forall|a: T, b: T| #[trigger] by.requires((&a, &b))
    &&& exists|le: spec_fn(T, T) -> bool| #[trigger] comparator_follows(by, le)
}

/// The comparator never finds an earlier element of `s` greater than a later
/// one.
pub open spec fn never_greater<T, F: Fn(&T, &T) -> Ordering>(by: &F, s: Seq<T>) -> bool {
    forall|i: int, j: int, o: Ordering|
        0 <= i < j < s.len() && #[trigger] by.ensures((&s[i], &s[j]), o) ==> o != Ordering::Greater
}

/// `r` tells whether a verdict of the comparator on `(b, a)` is `Greater`,
/// which is when `a` must end up before `b`.
pub open spec fn said_greater<T, F: Fn(&T, &T) -> Ordering>(by: &F, b: &T, a: &T, r: bool) -> bool {
    exists|o: Ordering| #[trigger] by.ensures((b, a), o) && r == (o == Ordering::Greater)
}

/// Whether `left` must end up before `right`: whether the comparator finds
/// `right` greater than `left`.
pub fn should_precede<T, F: Fn(&T, &T) -> Ordering>(comparator: &F, left: &T, right: &T) -> (r:
    bool)
    requires
        comparator.requires((right, left)),
    ensures
        said_greater(comparator, right, left, r),
{
    match comparator(right, left) {
        Ordering::Greater => true,
        _ => false,
    }
}

/// Sorts the slice by a three-way comparator. The sort is not stable.
/// A slice whose length is neither zero nor a power of two is refused and
/// left as it was.
pub fn bitonic_sort_by<T: Send, F: Send + Sync + Fn(&T, &T) -> Ordering>(
    slice: &mut [T],
    by: F,
) -> (res: Result<(), SortError>)
    requires
        valid_comparator(&by),
    ensures
        res is Ok <==> zero_or_pow2(old(slice)@.len()),
        res is Err ==> res == Err::<(), SortError>(SortError::InvalidLength) && final(slice)@ == old(
            slice,
        )@,
        final(slice)@.len() == old(slice)@.len(),
        final(slice)@.to_multiset() == old(slice)@.to_multiset(),
        old(slice)@.len() <= 1 ==> final(slice)@ == old(slice)@,
        res is Ok ==> never_greater(&by, final(slice)@),
        res is Ok ==> forall|le: spec_fn(T, T) -> bool| #[trigger]
            comparator_follows(&by, le) ==> sorted_by(final(slice)@, le),
        res is Ok ==> forall|le: spec_fn(T, T) -> bool| #[trigger]
            comparator_follows(&by, le) && sorted_by(old(slice)@, le) ==> tied_throughout(
                le,
                final(slice)@,
                old(slice)@,
            ),
        res is Ok ==> forall|le: spec_fn(T, T) -> bool| #[trigger]
            comparator_follows(&by, le) && antisymmetric(le) && sorted_by(old(slice)@, le)
                ==> final(slice)@ == old(slice)@,
{
    if !is_zero_or_pow2(slice.len()) {
        return Err(SortError::InvalidLength);
    }
    let ghost before = slice@;
    let comparator = &by;
    let precedes = |left: &T, right: &T| -> (r: bool)
        requires
            comparator.requires((right, left)),
        ensures
            said_greater(comparator, right, left, r),
        { should_precede(comparator, left, right) };
    proof {
        assert forall|le: spec_fn(T, T) -> bool| #[trigger]
            comparator_follows(&by, le) implies pred_follows(&precedes, le) by {
            assert forall|a: T, b: T, r: bool| #[trigger]
                precedes.ensures((&a, &b), r) implies r == !le(b, a) by {
                assert(said_greater(&by, &b, &a, r));
            }
        }
        let le0 = choose|le: spec_fn(T, T) -> bool| #[trigger] comparator_follows(&by, le);
        assert(pred_follows(&precedes, le0));
    }
    do_bitonic_sort_by(slice, &precedes, true);
    proof {
        let after = slice@;
        assert forall|le: spec_fn(T, T) -> bool| #[trigger]
            comparator_follows(&by, le) implies sorted_by(after, le) && (sorted_by(before, le)
            ==> tied_throughout(le, after, before)) && (antisymmetric(le) && sorted_by(before, le)
            ==> after == before) by {
            assert(pred_follows(&precedes, le));
            let r = directed(le, true);
            assert(sorted_by(after, r));
            assert forall|i: int, j: int| 0 <= i < j < after.len() implies #[trigger] le(
                after[i],
                after[j],
            ) by {
                assert(r(after[i], after[j]));
            }
            if sorted_by(before, le) {
                lemma_sorted_tied(after, before, le);
            }
            if antisymmetric(le) && sorted_by(before, le) {
                assert forall|x: T| #[trigger] le(x, x) by {
                    assert(le(x, x) || le(x, x));
                }
                lemma_sorted_unique(after, before, le);
            }
        }
        let le0 = choose|le: spec_fn(T, T) -> bool| #[trigger] comparator_follows(&by, le);
        assert(sorted_by(after, le0));
        assert forall|i: int, j: int, o: Ordering|
            0 <= i < j < after.len() && #[trigger] by.ensures(
                (&after[i], &after[j]),
                o,
            ) implies o != Ordering::Greater by {
            assert(le0(after[i], after[j]));
        }
    }
    Ok(())
}

/// The natural order of `T` as a relation: `a` may stand before `b` unless
/// `a` compares greater than `b`.
pub open spec fn natural_order<T: Ord>() -> spec_fn(T, T) -> bool {
    |a: T, b: T| a.cmp_spec(&b) != Ordering::Greater
}

/// Sorts the slice by the natural order of its elements. The sort is not
/// stable. A slice whose length is neither zero nor a power of two is
/// refused and left as it was.
pub fn bitonic_sort<T: Send>(slice: &mut [T]) -> (res: Result<(), SortError>) where T: Ord
    requires
        T::obeys_cmp_spec(),
        total_preorder(natural_order::<T>()),
    ensures
        res is Ok <==> zero_or_pow2(old(slice)@.len()),
        res is Err ==> res == Err::<(), SortError>(SortError::InvalidLength) && final(slice)@ == old(
            slice,
        )@,
        final(slice)@.len() == old(slice)@.len(),
        final(slice)@.to_multiset() == old(slice)@.to_multiset(),
        old(slice)@.len() <= 1 ==> final(slice)@ == old(slice)@,
        res is Ok ==> sorted_by(final(slice)@, natural_order::<T>()),
        res is Ok && sorted_by(old(slice)@, natural_order::<T>()) ==> tied_throughout(
            natural_order::<T>(),
            final(slice)@,
            old(slice)@,
        ),
        res is Ok && antisymmetric(natural_order::<T>()) && sorted_by(
            old(slice)@,
            natural_order::<T>(),
        ) ==> final(slice)@ == old(slice)@,
{
    let natural = |left: &T, right: &T| -> (o: Ordering)
        ensures
            o == left.cmp_spec(right),
        { left.cmp(right) };
    proof {
        assert(comparator_follows(&natural, natural_order::<T>()));
    }
    bitonic_sort_by(slice, natural)
}

/// Every key that the extractor `key` hands out is the one that `kf` names.
pub open spec fn key_follows<T, K, F: Fn(&T) -> K>(key: &F, kf: spec_fn(T) -> K) -> bool {
    forall|a: T, k: K| #[trigger] key.ensures((&a,), k) ==> k == kf(a)
}

/// The extractor can be called on every element, and the key of an element
/// is always the same.
pub open spec fn valid_key<T, K, F: Fn(&T) -> K>(key: &F) -> bool {
    &&& forall|a: T| #[trigger] key.requires((&a,))
    &&& exists|kf: spec_fn(T) -> K| #[trigger] key_follows(key, kf)
}

/// The order of the elements by their keys: `a` may stand before `b` unless
/// the key of `a` compares greater than the key of `b`.
pub open spec fn key_order<T, K: Ord>(kf: spec_fn(T) -> K) -> spec_fn(T, T) -> bool {
    |a: T, b: T| kf(a).cmp_spec(&kf(b)) != Ordering::Greater
}

/// `o` is a verdict of the natural order on two keys that the extractor
/// hands out for `left` and `right`.
pub open spec fn keys_compare<T, K: Ord, F: Fn(&T) -> K>(
    key: &F,
    left: &T,
    right: &T,
    o: Ordering,
) -> bool {
    exists|kl: K, kr: K|
        #![trigger key.ensures((left,), kl), key.ensures((right,), kr)]
        key.ensures((left,), kl) && key.ensures((right,), kr) && o == kl.cmp_spec(&kr)
}

/// Ordering by keys is a total preorder where the keys' natural order is one.
pub proof fn lemma_key_order_total_preorder<T, K: Ord>(kf: spec_fn(T) -> K)
    requires
        total_preorder(natural_order::<K>()),
    ensures
        total_preorder(key_order(kf)),
{
    let n = natural_order::<K>();
    let r = key_order(kf);
    assert forall|x: T, y: T| #[trigger] r(x, y) || #[trigger] r(y, x) by {
        assert(n(kf(x), kf(y)) || n(kf(y), kf(x)));
    }
    assert forall|x: T, y: T, z: T| #[trigger] r(x, y) && #[trigger] r(y, z) implies r(x, z) by {
        assert(n(kf(x), kf(y)) && n(kf(y), kf(z)));
        assert(n(kf(x), kf(z)));
    }
}

/// Compares two elements by their keys, each extracted for this comparison.
pub fn compare_keys<T, K: Ord, F: Fn(&T) -> K>(key: &F, left: &T, right: &T) -> (o: Ordering)
    requires
        key.requires((left,)),
        key.requires((right,)),
        K::obeys_cmp_spec(),
    ensures
        keys_compare(key, left, right, o),
{
    let kl = key(left);
    let kr = key(right);
    kl.cmp(&kr)
}

/// Sorts the slice by the natural order of the keys that `key` extracts from
/// its elements. The key is extracted anew for each comparison. The sort is
/// not stable. A slice whose length is neither zero nor a power of two is
/// refused and left as it was.
pub fn bitonic_sort_by_key<T: Send, K, F: Send + Sync + Fn(&T) -> K>(slice: &mut [T], key: F) -> (res:
    Result<(), SortError>) where K: Ord
    requires
        valid_key(&key),
        K::obeys_cmp_spec(),
        total_preorder(natural_order::<K>()),
    ensures
        res is Ok <==> zero_or_pow2(old(slice)@.len()),
        res is Err ==> res == Err::<(), SortError>(SortError::InvalidLength) && final(slice)@ == old(
            slice,
        )@,
        final(slice)@.len() == old(slice)@.len(),
        final(slice)@.to_multiset() == old(slice)@.to_multiset(),
        old(slice)@.len() <= 1 ==> final(slice)@ == old(slice)@,
        res is Ok ==> forall|kf: spec_fn(T) -> K| #[trigger]
            key_follows(&key, kf) ==> sorted_by(final(slice)@, key_order(kf)),
        res is Ok ==> forall|kf: spec_fn(T) -> K| #[trigger]
            key_follows(&key, kf) && sorted_by(old(slice)@, key_order(kf)) ==> tied_throughout(
                key_order(kf),
                final(slice)@,
                old(slice)@,
            ),
        res is Ok ==> forall|kf: spec_fn(T) -> K| #[trigger]
            key_follows(&key, kf) && antisymmetric(key_order(kf)) && sorted_by(
                old(slice)@,
                key_order(kf),
            ) ==> final(slice)@ == old(slice)@,
{
    let extract = &key;
    let derived = |left: &T, right: &T| -> (o: Ordering)
        requires
            extract.requires((left,)),
            extract.requires((right,)),
            K::obeys_cmp_spec(),
        ensures
            keys_compare(extract, left, right, o),
        { compare_keys(extract, left, right) };
    proof {
        assert forall|kf: spec_fn(T) -> K| #[trigger] key_follows(&key, kf) implies comparator_follows(
            &derived,
            key_order(kf),
        ) by {
            lemma_key_order_total_preorder::<T, K>(kf);
            let le = key_order(kf);
            assert forall|a: T, b: T, o: Ordering| #[trigger]
                derived.ensures((&a, &b), o) implies ((o == Ordering::Greater) == !le(a, b)) by {
                assert(keys_compare(extract, &a, &b, o));
            }
        }
        let kf0 = choose|kf: spec_fn(T) -> K| #[trigger] key_follows(&key, kf);
        assert(comparator_follows(&derived, key_order(kf0)));
    }
    bitonic_sort_by(slice, derived)
}

} // verus!
