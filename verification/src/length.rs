//! The lengths that the network accepts: zero and the powers of two.

use vstd::prelude::*;

verus! {

/// `n` is zero or a power of two.
pub open spec fn zero_or_pow2(n: nat) -> bool
    decreases n,
{
    n <= 1 || (n % 2 == 0 && zero_or_pow2(n / 2))
}

/// Clearing the lowest set bit of a positive `x` leaves nothing exactly when
/// `x` is a power of two.
pub proof fn lemma_lowest_bit(x: u64, y: u64)
    requires
        x >= 1,
        y == x - 1,
    ensures
        x & y == 0 <==> zero_or_pow2(x as nat),
    decreases x,
{
    if x == 1 {
        assert(1u64 & 0u64 == 0) by (bit_vector);
    } else {
        let h: u64 = x / 2;
        let g: u64 = (h - 1) as u64;
        lemma_lowest_bit(h, g);
        if x % 2 == 0 {
            assert((x & y == 0) == (h & g == 0)) by (bit_vector)
                requires
                    x >= 2,
                    x % 2 == 0,
                    h == x / 2,
                    y == x - 1,
                    g == h - 1,
            ;
        } else {
            assert(x & y != 0) by (bit_vector)
                requires
                    x >= 3,
                    x % 2 == 1,
                    y == x - 1,
            ;
        }
    }
}

/// Whether `x` is zero or a power of two.
pub fn is_zero_or_pow2(x: usize) -> (r: bool)
    ensures
        r == zero_or_pow2(x as nat),
{
    let y: usize = x.wrapping_sub(1);
    proof {
        if x == 0 {
            assert(0usize & y == 0) by (bit_vector);
        } else {
            let a: u64 = x as u64;
            let b: u64 = y as u64;
            lemma_lowest_bit(a, b);
            assert(x & y == 0 <==> a & b == 0) by (bit_vector)
                requires
                    a == x as u64,
                    b == y as u64,
            ;
        }
    }
    x & y == 0
}

} // verus!
