//! Parallel bitonic sorting of slices whose length is zero or a power of two.
//!
//! The three sorts of [`entry`] permute a slice in place: by the natural
//! order of its elements, by a three-way comparator, or by a key. Each
//! refuses a slice of any other length and leaves it as it was. A range is
//! sorted by sorting its first half upwards and its second half downwards,
//! on two threads at once, which makes it bitonic, and then merging it by
//! compare-exchange passes over ever shorter halves. Short ranges are sorted
//! and merged on one thread.
//!
//! The contracts say that the slice keeps its elements and ends up sorted by
//! every total preorder that the comparator decides by. The proof looks at a
//! sequence through the upward closed sets of its order: in a bitonic
//! sequence each such set occupies one cyclic run of positions ([`bitonic`]),
//! and a compare-exchange pass keeps that true of both halves while putting
//! the first wholly before the second ([`zero_one`]). The sort is not
//! stable: what it leaves open is the order of tied elements, and no more
//! ([`ties`]).
//!
//! The thread pool is rayon's. Its fork-join and its chunked iteration are
//! called through functions whose contracts are taken on trust; so is the
//! sequential sort of std that short ranges fall back to.

pub mod bitonic;
pub mod entry;
pub mod exchange;
pub mod keys;
pub mod length;
pub mod merge;
pub mod order;
pub mod small;
pub mod sort;
pub mod threshold;
pub mod ties;
pub mod zero_one;

pub use crate::entry::{bitonic_sort, bitonic_sort_by, bitonic_sort_by_key, SortError};
