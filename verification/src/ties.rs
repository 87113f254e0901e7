//! Sorting is determined up to the order of tied elements.

use vstd::prelude::*;
use vstd::relations::sorted_by;
use vstd::seq_lib::{to_multiset_contains, to_multiset_len, to_multiset_remove};
use crate::order::total_preorder;

verus! {

/// The two sequences are equally long, and at every position their elements
/// are tied: each may stand before the other.
pub open spec fn tied_throughout<T>(le: spec_fn(T, T) -> bool, s1: Seq<T>, s2: Seq<T>) -> bool {
    &&& s1.len() == s2.len()
    &&& forall|i: int| 0 <= i < s1.len() ==> #[trigger] le(s1[i], s2[i]) && le(s2[i], s1[i])
}

/// Two sorted arrangements of the same elements differ only in the order of
/// tied elements. So sorting what is sorted already can at most move
/// elements among their ties, and any two sorts by the same order agree up
/// to ties.
pub proof fn lemma_sorted_tied<T>(s1: Seq<T>, s2: Seq<T>, le: spec_fn(T, T) -> bool)
    requires
        total_preorder(le),
        sorted_by(s1, le),
        sorted_by(s2, le),
        s1.to_multiset() == s2.to_multiset(),
    ensures
        tied_throughout(le, s1, s2),
    decreases s1.len(),
{
    to_multiset_len(s1);
    to_multiset_len(s2);
    if s1.len() > 0 {
        assert forall|v: T| #[trigger] le(v, v) by {
            assert(le(v, v) || le(v, v));
        }
        let x = s1[0];
        let y = s2[0];
        assert(s1.contains(x));
        to_multiset_contains(s1, x);
        to_multiset_contains(s2, x);
        let j = choose|j: int| 0 <= j < s2.len() && s2[j] == x;
        assert(s2.contains(y));
        to_multiset_contains(s1, y);
        to_multiset_contains(s2, y);
        let u = choose|u: int| 0 <= u < s1.len() && s1[u] == y;
        assert(le(x, y)) by {
            if u > 0 {
                assert(le(s1[0], s1[u]));
            }
        }
        assert(le(y, x)) by {
            if j > 0 {
                assert(le(s2[0], s2[j]));
            }
        }
        let a = s1.remove(0);
        let b = s2.remove(j);
        to_multiset_remove(s1, 0);
        to_multiset_remove(s2, j);
        assert(a.len() == s1.len() - 1 && b.len() == s2.len() - 1);
        assert forall|k: int| 0 <= k < a.len() implies a[k] == s1[k + 1] by {}
        assert forall|k: int| 0 <= k < b.len() implies b[k] == if k < j {
            s2[k]
        } else {
            s2[k + 1]
        } by {}
        assert forall|p: int, q: int| 0 <= p < q < a.len() implies #[trigger] le(a[p], a[q]) by {
            assert(le(s1[p + 1], s1[q + 1]));
        }
        assert forall|p: int, q: int| 0 <= p < q < b.len() implies #[trigger] le(b[p], b[q]) by {
            let from_p = if p < j { p } else { p + 1 };
            let from_q = if q < j { q } else { q + 1 };
            assert(le(s2[from_p], s2[from_q]));
        }
        lemma_sorted_tied(a, b, le);
        assert forall|i: int| 0 <= i < s1.len() implies #[trigger] le(s1[i], s2[i]) && le(
            s2[i],
            s1[i],
        ) by {
            if i > 0 {
                assert(a[i - 1] == s1[i]);
                let k = i - 1;
                assert(0 <= k < a.len());
                assert(le(a[k], b[k]));
                assert(le(b[k], a[k]));
                if i - 1 < j {
                    let w = s2[i - 1];
                    let z = s2[i];
                    assert(b[i - 1] == w);
                    assert(le(w, x)) by {
                        assert(le(s2[i - 1], s2[j]));
                    }
                    assert(le(y, z)) by {
                        assert(le(s2[0], s2[i]));
                    }
                    assert(le(z, x)) by {
                        if i < j {
                            assert(le(s2[i], s2[j]));
                        }
                    }
                    assert(le(y, w)) by {
                        if i - 1 > 0 {
                            assert(le(s2[0], s2[i - 1]));
                        }
                    }
                    assert(le(x, y) && le(y, z));
                    assert(le(x, z));
                    assert(le(x, y) && le(y, w));
                    assert(le(x, w));
                    assert(le(s1[i], w) && le(w, x));
                    assert(le(s1[i], x));
                    assert(le(s1[i], x) && le(x, z));
                    assert(le(z, x) && le(x, w));
                    assert(le(z, w));
                    assert(le(z, w) && le(w, s1[i]));
                } else {
                    assert(b[i - 1] == s2[i]);
                }
            }
        }
    }
}

} // verus!
