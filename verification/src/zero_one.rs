//! Facts about boolean sequences that carry the correctness argument of the
//! sorting network: a sequence is looked at through a predicate on its
//! elements, and what matters is where the predicate holds.

use vstd::prelude::*;

verus! {

/// `b` holds exactly on the positions from `i` up to, not including, `j`;
/// with `flip`, exactly off them.
pub open spec fn arc(b: Seq<bool>, i: int, j: int, flip: bool) -> bool {
    &&& 0 <= i <= j <= b.len()
    &&& forall|k: int| 0 <= k < b.len() ==> #[trigger] b[k] == ((i <= k < j) != flip)
}

/// The positions where `b` holds form one run, possibly wrapping around the
/// end of the sequence.
pub open spec fn cyclic_run(b: Seq<bool>) -> bool {
    exists|i: int, j: int, flip: bool| arc(b, i, j, flip)
}

/// Every entry of `b` is `v`.
pub open spec fn constant(b: Seq<bool>, v: bool) -> bool {
    forall|k: int| 0 <= k < b.len() ==> #[trigger] b[k] == v
}

/// Once `b` holds it keeps holding.
pub open spec fn rising(b: Seq<bool>) -> bool {
    forall|i: int, j: int| 0 <= i < j < b.len() && #[trigger] b[i] ==> #[trigger] b[j]
}

/// Once `b` fails it keeps failing.
pub open spec fn falling(b: Seq<bool>) -> bool {
    forall|i: int, j: int| 0 <= i < j < b.len() && #[trigger] b[j] ==> #[trigger] b[i]
}

/// Position `k` of the result holds when `b` holds at `k` and at `k + m`.
pub open spec fn both_halves(b: Seq<bool>, m: int) -> Seq<bool> {
    Seq::new(m as nat, |k: int| b[k] && b[k + m])
}

/// Position `k` of the result holds when `b` holds at `k` or at `k + m`.
pub open spec fn either_half(b: Seq<bool>, m: int) -> Seq<bool> {
    Seq::new(m as nat, |k: int| b[k] || b[k + m])
}

/// A rising sequence switches from `false` to `true` at one position.
pub proof fn lemma_rising_switch(b: Seq<bool>) -> (i: int)
    requires
        rising(b),
    ensures
        0 <= i <= b.len(),
        forall|k: int| 0 <= k < b.len() ==> #[trigger] b[k] == (k >= i),
    decreases b.len(),
{
    if b.len() == 0 {
        0
    } else if b[0] {
        assert forall|k: int| 0 <= k < b.len() implies #[trigger] b[k] by {
            if k > 0 {
                assert(b[0] ==> b[k]);
            }
        }
        0
    } else {
        let rest = b.subrange(1, b.len() as int);
        assert forall|i: int, j: int| 0 <= i < j < rest.len() && #[trigger] rest[i] implies #[trigger] rest[j] by {
            assert(b[i + 1] ==> b[j + 1]);
        }
        let i = lemma_rising_switch(rest);
        assert forall|k: int| 0 <= k < b.len() implies #[trigger] b[k] == (k >= i + 1) by {
            if k > 0 {
                assert(rest[k - 1] == b[k]);
            }
        }
        i + 1
    }
}

/// A falling sequence switches from `true` to `false` at one position.
pub proof fn lemma_falling_switch(b: Seq<bool>) -> (i: int)
    requires
        falling(b),
    ensures
        0 <= i <= b.len(),
        forall|k: int| 0 <= k < b.len() ==> #[trigger] b[k] == (k < i),
{
    let n = Seq::new(b.len(), |k: int| !b[k]);
    assert forall|i: int, j: int| 0 <= i < j < n.len() && #[trigger] n[i] implies #[trigger] n[j] by {
        assert(b[j] ==> b[i]);
    }
    let i = lemma_rising_switch(n);
    assert forall|k: int| 0 <= k < b.len() implies #[trigger] b[k] == (k < i) by {
        assert(n[k] == !b[k]);
    }
    i
}

/// A rising sequence followed by a falling one holds on a single run.
pub proof fn lemma_peak(a: Seq<bool>, c: Seq<bool>)
    requires
        rising(a),
        falling(c),
    ensures
        cyclic_run(a + c),
{
    let i = lemma_rising_switch(a);
    let j = lemma_falling_switch(c);
    assert(arc(a + c, i, a.len() + j, false));
}

/// A falling sequence followed by a rising one fails on a single run.
pub proof fn lemma_valley(a: Seq<bool>, c: Seq<bool>)
    requires
        falling(a),
        rising(c),
    ensures
        cyclic_run(a + c),
{
    let i = lemma_falling_switch(a);
    let j = lemma_rising_switch(c);
    assert(arc(a + c, i, a.len() + j, true));
}

/// Pairing each position of the first half of a cyclic run with the same
/// position of the second half: the conjunctions form a cyclic run, so do
/// the disjunctions, and either no conjunction holds or every disjunction
/// does.
pub proof fn lemma_half_cleaner(b: Seq<bool>, m: int)
    requires
        0 <= m,
        b.len() == 2 * m,
        cyclic_run(b),
    ensures
        cyclic_run(both_halves(b, m)),
        cyclic_run(either_half(b, m)),
        constant(both_halves(b, m), false) || constant(either_half(b, m), true),
{
    let (i, j, flip) = choose|i: int, j: int, flip: bool| arc(b, i, j, flip);
    let lo = both_halves(b, m);
    let hi = either_half(b, m);
    assert forall|k: int| 0 <= k < m implies lo[k] == (b[k] && b[k + m]) && hi[k] == (b[k] || b[k
        + m]) && b[k] == ((i <= k < j) != flip) && b[k + m] == ((i <= k + m < j) != flip) by {}
    if !flip {
        if j - i >= m {
            assert(arc(lo, i, j - m, false));
            assert(arc(hi, 0, m, false));
            assert(constant(hi, true));
        } else {
            assert(arc(lo, 0, 0, false));
            assert(constant(lo, false));
            if j <= m {
                assert(arc(hi, i, j, false));
            } else if i >= m {
                assert(arc(hi, i - m, j - m, false));
            } else {
                assert(arc(hi, j - m, i, true));
            }
        }
    } else {
        if j - i >= m {
            assert(arc(lo, 0, 0, false));
            assert(constant(lo, false));
            assert(arc(hi, i, j - m, true));
        } else {
            assert(arc(hi, 0, m, false));
            assert(constant(hi, true));
            if j <= m {
                assert(arc(lo, i, j, true));
            } else if i >= m {
                assert(arc(lo, i - m, j - m, true));
            } else {
                assert(arc(lo, j - m, i, false));
            }
        }
    }
}

} // verus!
