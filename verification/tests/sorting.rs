use bitonic::entry::{compare_keys, should_precede};
use bitonic::exchange::bitonic_compare;
use bitonic::length::is_zero_or_pow2;
use bitonic::merge::{bitonic_merge_by, parallel_bitonic_merge_by, serial_bitonic_merge_by};
use bitonic::small::directed_verdict;
use bitonic::sort::do_bitonic_sort_by;
use bitonic::threshold::{MIN_COMPARE_CHUNKS, MIN_PARALLEL_MERGE, MIN_SORT};
use bitonic::{bitonic_sort, bitonic_sort_by, bitonic_sort_by_key, SortError};
use std::cmp::Ordering;
use std::collections::HashMap;

fn pseudo_random(len: usize, seed: u32, modulus: u32) -> Vec<u32> {
    let mut v = Vec::with_capacity(len);
    let mut r = seed;
    for _ in 0..len {
        r = r.wrapping_mul(1664525).wrapping_add(1013904223);
        v.push((r >> 8) % modulus);
    }
    v
}

fn frequencies(items: &[u32]) -> HashMap<u32, usize> {
    let mut frequencies = HashMap::with_capacity(items.len());
    for item in items {
        *frequencies.entry(*item).or_insert(0) += 1;
    }
    frequencies
}

fn is_sorted_by<F: Fn(&u32, &u32) -> Ordering>(input: &[u32], sorted: &[u32], by: F) -> bool {
    if frequencies(input) != frequencies(sorted) {
        return false;
    }
    sorted.iter().zip(sorted.iter().skip(1)).all(|(current, next)| by(current, next) != Ordering::Greater)
}

fn even_first(left: &u32, right: &u32) -> Ordering {
    if left % 2 == 0 {
        if right % 2 == 0 {
            left.cmp(right)
        } else {
            Ordering::Less
        }
    } else if right % 2 == 0 {
        Ordering::Greater
    } else {
        right.cmp(left)
    }
}

fn negated(item: &u32) -> i64 {
    -i64::from(*item)
}

fn less(left: &u32, right: &u32) -> bool {
    left < right
}

const LENGTHS: [usize; 9] = [0, 1, 2, 4, 64, 4096, 8192, 16384, 65536];

#[test]
fn test_sort() {
    for (n, len) in LENGTHS.iter().enumerate() {
        let xs = pseudo_random(*len, 7 + n as u32, 1000);
        let mut sorted = xs.clone();
        assert_eq!(bitonic_sort(&mut sorted), Ok(()));
        assert!(is_sorted_by(&xs, &sorted, Ord::cmp));
        let mut expected = xs.clone();
        expected.sort();
        assert_eq!(sorted, expected);
    }
}

#[test]
fn test_sort_by() {
    for (n, len) in LENGTHS.iter().enumerate() {
        let xs = pseudo_random(*len, 11 + n as u32, 100000);
        let mut sorted = xs.clone();
        assert_eq!(bitonic_sort_by(&mut sorted, even_first), Ok(()));
        assert!(is_sorted_by(&xs, &sorted, even_first));
        let mut expected = xs.clone();
        expected.sort_by(even_first);
        assert_eq!(sorted, expected);
    }
}

#[test]
fn test_sort_by_key() {
    for (n, len) in LENGTHS.iter().enumerate() {
        let xs = pseudo_random(*len, 13 + n as u32, 5000);
        let mut sorted = xs.clone();
        assert_eq!(bitonic_sort_by_key(&mut sorted, negated), Ok(()));
        assert!(is_sorted_by(&xs, &sorted, |left, right| negated(left).cmp(&negated(right))));
        let mut expected = xs.clone();
        expected.sort_by_key(negated);
        assert_eq!(sorted, expected);
    }
}

#[test]
fn natural_order_of_four() {
    let mut v = vec![4, 3, 2, 1];
    assert_eq!(bitonic_sort(&mut v), Ok(()));
    assert_eq!(v, vec![1, 2, 3, 4]);
}

#[test]
fn negated_key_of_eight() {
    let mut v: Vec<i32> = vec![1, 2, 3, 4, 5, 6, 7, 8];
    assert_eq!(bitonic_sort_by_key(&mut v, |x| -*x), Ok(()));
    assert_eq!(v, vec![8, 7, 6, 5, 4, 3, 2, 1]);
}

#[test]
fn even_before_odd_of_four() {
    let mut v: Vec<u32> = vec![1, 2, 3, 4];
    assert_eq!(bitonic_sort_by(&mut v, even_first), Ok(()));
    assert_eq!(v, vec![2, 4, 3, 1]);
}

#[test]
fn empty_slice_is_left_alone() {
    let mut v: Vec<u32> = Vec::new();
    assert_eq!(bitonic_sort(&mut v), Ok(()));
    assert_eq!(bitonic_sort_by(&mut v, even_first), Ok(()));
    assert_eq!(bitonic_sort_by_key(&mut v, negated), Ok(()));
    assert!(v.is_empty());
}

#[test]
fn single_element_is_left_alone() {
    let mut v: Vec<u32> = vec![42];
    assert_eq!(bitonic_sort(&mut v), Ok(()));
    assert_eq!(v, vec![42]);
    assert_eq!(bitonic_sort_by(&mut v, even_first), Ok(()));
    assert_eq!(v, vec![42]);
    assert_eq!(bitonic_sort_by_key(&mut v, negated), Ok(()));
    assert_eq!(v, vec![42]);
}

#[test]
fn length_three_is_refused() {
    let mut v: Vec<u32> = vec![3, 1, 2];
    assert_eq!(bitonic_sort(&mut v), Err(SortError::InvalidLength));
    assert_eq!(v, vec![3, 1, 2]);
}

#[test]
fn length_five_is_refused() {
    let mut v: Vec<u32> = vec![5, 4, 3, 2, 1];
    assert_eq!(bitonic_sort_by(&mut v, even_first), Err(SortError::InvalidLength));
    assert_eq!(v, vec![5, 4, 3, 2, 1]);
}

#[test]
fn length_hundred_is_refused() {
    let xs = pseudo_random(100, 3, 50);
    let mut v = xs.clone();
    assert_eq!(bitonic_sort_by_key(&mut v, negated), Err(SortError::InvalidLength));
    assert_eq!(v, xs);
    assert_eq!(bitonic_sort(&mut v), Err(SortError::InvalidLength));
    assert_eq!(v, xs);
}

#[test]
fn long_invalid_length_is_refused() {
    let xs = pseudo_random(12288, 5, 1000);
    let mut v = xs.clone();
    assert_eq!(bitonic_sort(&mut v), Err(SortError::InvalidLength));
    assert_eq!(v, xs);
}

#[test]
fn sorting_twice_changes_nothing() {
    for len in [8usize, 8192, 32768] {
        let mut v = pseudo_random(len, 17, 777);
        assert_eq!(bitonic_sort(&mut v), Ok(()));
        let once = v.clone();
        assert_eq!(bitonic_sort(&mut v), Ok(()));
        assert_eq!(v, once);
    }
}

#[test]
fn reversed_long_input_is_sorted() {
    let len: u32 = 16384;
    let mut v: Vec<u32> = (0..len).rev().collect();
    assert_eq!(bitonic_sort(&mut v), Ok(()));
    let expected: Vec<u32> = (0..len).collect();
    assert_eq!(v, expected);
}

#[test]
fn key_sort_orders_as_derived_comparator() {
    for len in [16usize, 16384] {
        let xs = pseudo_random(len, 23, 60);
        let mut by_key = xs.clone();
        let mut by_comparator = xs.clone();
        assert_eq!(bitonic_sort_by_key(&mut by_key, negated), Ok(()));
        assert_eq!(
            bitonic_sort_by(&mut by_comparator, |a, b| negated(a).cmp(&negated(b))),
            Ok(())
        );
        let keys: Vec<i64> = by_key.iter().map(negated).collect();
        let other: Vec<i64> = by_comparator.iter().map(negated).collect();
        assert_eq!(keys, other);
    }
}

#[test]
fn ties_keep_every_element() {
    let mut v: Vec<(u32, u32)> = (0..16384u32).map(|i| (i % 7, i)).collect();
    assert_eq!(bitonic_sort_by_key(&mut v, |p| p.0), Ok(()));
    assert!(v.windows(2).all(|w| w[0].0 <= w[1].0));
    let mut seen: Vec<u32> = v.iter().map(|p| p.1).collect();
    seen.sort();
    assert_eq!(seen, (0..16384u32).collect::<Vec<u32>>());
}

#[test]
fn elements_that_cannot_be_copied_are_moved() {
    let mut v: Vec<String> = vec!["pear", "apple", "quince", "fig"].into_iter().map(String::from).collect();
    assert_eq!(bitonic_sort(&mut v), Ok(()));
    assert_eq!(v, vec!["apple", "fig", "pear", "quince"]);
}

#[test]
fn zero_and_powers_of_two_are_accepted() {
    assert!(is_zero_or_pow2(0));
    assert!(is_zero_or_pow2(1));
    assert!(is_zero_or_pow2(2));
    assert!(is_zero_or_pow2(4096));
    assert!(is_zero_or_pow2(1usize << (usize::BITS - 1)));
    assert!(!is_zero_or_pow2(3));
    assert!(!is_zero_or_pow2(5));
    assert!(!is_zero_or_pow2(6));
    assert!(!is_zero_or_pow2(100));
    assert!(!is_zero_or_pow2(usize::MAX));
}

#[test]
fn thresholds_have_their_values() {
    assert_eq!(MIN_COMPARE_CHUNKS, 4096);
    assert_eq!(MIN_PARALLEL_MERGE, 4096);
    assert_eq!(MIN_SORT, 8192);
}

#[test]
fn should_precede_is_strict() {
    let by = |a: &u32, b: &u32| a.cmp(b);
    assert!(should_precede(&by, &1, &2));
    assert!(!should_precede(&by, &2, &1));
    assert!(!should_precede(&by, &2, &2));
}

#[test]
fn compare_keys_compares_the_keys() {
    assert_eq!(compare_keys(&negated, &1, &2), Ordering::Greater);
    assert_eq!(compare_keys(&negated, &2, &1), Ordering::Less);
    assert_eq!(compare_keys(&negated, &2, &2), Ordering::Equal);
}

#[test]
fn directed_verdict_mirrors_when_descending() {
    assert_eq!(directed_verdict(&less, true, &1, &2), Ordering::Less);
    assert_eq!(directed_verdict(&less, true, &2, &1), Ordering::Greater);
    assert_eq!(directed_verdict(&less, true, &2, &2), Ordering::Equal);
    assert_eq!(directed_verdict(&less, false, &1, &2), Ordering::Greater);
    assert_eq!(directed_verdict(&less, false, &2, &1), Ordering::Less);
    assert_eq!(directed_verdict(&less, false, &2, &2), Ordering::Equal);
}

#[test]
fn compare_exchange_orders_each_pair() {
    let mut left: Vec<u32> = vec![5, 1, 7, 3];
    let mut right: Vec<u32> = vec![2, 6, 7, 0];
    bitonic_compare(&mut left, &mut right, &less);
    assert_eq!(left, vec![2, 1, 7, 0]);
    assert_eq!(right, vec![5, 6, 7, 3]);
}

#[test]
fn compare_exchange_leaves_ties_in_place() {
    let by_first = |a: &(u32, u32), b: &(u32, u32)| a.0 < b.0;
    let mut left = vec![(1, 10), (2, 20)];
    let mut right = vec![(1, 11), (1, 21)];
    bitonic_compare(&mut left, &mut right, &by_first);
    assert_eq!(left, vec![(1, 10), (1, 21)]);
    assert_eq!(right, vec![(1, 11), (2, 20)]);
}

#[test]
fn serial_merge_sorts_a_bitonic_range() {
    let mut up: Vec<u32> = vec![1, 4, 6, 9, 8, 5, 3, 0];
    serial_bitonic_merge_by(&mut up, &less, true);
    assert_eq!(up, vec![0, 1, 3, 4, 5, 6, 8, 9]);
    let mut down: Vec<u32> = vec![1, 4, 6, 9, 8, 5, 3, 0];
    serial_bitonic_merge_by(&mut down, &less, false);
    assert_eq!(down, vec![9, 8, 6, 5, 4, 3, 1, 0]);
}

#[test]
fn parallel_merge_sorts_a_bitonic_range() {
    let half: u32 = 8192;
    let bitonic: Vec<u32> = (0..half).map(|i| 2 * i).chain((0..half).rev().map(|i| 2 * i + 1)).collect();
    let mut expected = bitonic.clone();
    expected.sort();
    let mut up = bitonic.clone();
    parallel_bitonic_merge_by(&mut up, &less, true);
    assert_eq!(up, expected);
    let mut down = bitonic.clone();
    bitonic_merge_by(&mut down, &less, false);
    expected.reverse();
    assert_eq!(down, expected);
}

#[test]
fn recursive_sorter_sorts_in_both_directions() {
    for len in [8usize, 16384] {
        let xs = pseudo_random(len, 29, 1 << 20);
        let mut expected = xs.clone();
        expected.sort();
        let mut up = xs.clone();
        do_bitonic_sort_by(&mut up, &less, true);
        assert_eq!(up, expected);
        let mut down = xs.clone();
        do_bitonic_sort_by(&mut down, &less, false);
        expected.reverse();
        assert_eq!(down, expected);
    }
}

#[test]
fn comparator_with_ties_keeps_every_element_in_order() {
    let by_tens = |a: &u32, b: &u32| (a / 10).cmp(&(b / 10));
    for len in [32usize, 32768] {
        let xs = pseudo_random(len, 31, 200);
        let mut sorted = xs.clone();
        assert_eq!(bitonic_sort_by(&mut sorted, by_tens), Ok(()));
        assert!(is_sorted_by(&xs, &sorted, by_tens));
        let mut expected = xs.clone();
        expected.sort_by(by_tens);
        let tens: Vec<u32> = sorted.iter().map(|x| x / 10).collect();
        let expected_tens: Vec<u32> = expected.iter().map(|x| x / 10).collect();
        assert_eq!(tens, expected_tens);
    }
}

#[test]
fn sorted_input_with_ties_keeps_its_keys_in_place() {
    let mut v: Vec<(u32, u32)> = (0..8192u32).map(|i| (i / 3, i % 3)).collect();
    let before = v.clone();
    assert_eq!(bitonic_sort_by_key(&mut v, |p| p.0), Ok(()));
    let keys: Vec<u32> = v.iter().map(|p| p.0).collect();
    let keys_before: Vec<u32> = before.iter().map(|p| p.0).collect();
    assert_eq!(keys, keys_before);
    let mut all = v.clone();
    all.sort();
    assert_eq!(all, before);
}
