//! The size cutoffs that decide between parallel and sequential work.

use vstd::prelude::*;

verus! {

/// Length of the pieces that one parallel compare-exchange pass is cut into.
pub const MIN_COMPARE_CHUNKS: usize = 4096;

/// Ranges shorter than this are merged sequentially.
pub const MIN_PARALLEL_MERGE: usize = 4096;

/// Ranges shorter than this are sorted by a sequential comparison sort.
pub const MIN_SORT: usize = 8192;

} // verus!
