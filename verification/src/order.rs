//! The ordering vocabulary that the sorting contracts are stated in.

use vstd::prelude::*;
use vstd::relations::{strongly_connected, transitive};

verus! {

/// A total preorder: any two elements are comparable, and the relation is
/// transitive. Distinct elements may be tied.
pub open spec fn total_preorder<T>(le: spec_fn(T, T) -> bool) -> bool {
    strongly_connected(le) && transitive(le)
}

/// The relation `le` read in the given direction: as it is when `up`,
/// mirrored otherwise.
pub open spec fn directed<T>(le: spec_fn(T, T) -> bool, up: bool) -> spec_fn(T, T) -> bool {
    |a: T, b: T| if up { le(a, b) } else { le(b, a) }
}

/// The predicate may be called on every pair of elements.
pub open spec fn callable<T, F: Fn(&T, &T) -> bool>(by: &F) -> bool {
    forall|a: T, b: T| #[trigger] by.requires((&a, &b))
}

/// Every verdict of the predicate `by` agrees with the total preorder `le`:
/// `by(a, b)` holds exactly when `a` is strictly before `b`.
pub open spec fn pred_follows<T, F: Fn(&T, &T) -> bool>(by: &F, le: spec_fn(T, T) -> bool) -> bool {
    &&& total_preorder(le)
    &&& forall|a: T, b: T, r: bool| #[trigger] by.ensures((&a, &b), r) ==> r == !le(b, a)
}

/// The predicate can be called anywhere and decides by some total preorder.
pub open spec fn orderly<T, F: Fn(&T, &T) -> bool>(by: &F) -> bool {
    &&& callable(by)
    &&& exists|le: spec_fn(T, T) -> bool| #[trigger] pred_follows(by, le)
}

} // verus!
