//! Saturating arithmetic for memory estimates.

use vstd::prelude::*;

verus! {

/// `x`, or the largest `usize` if `x` does not fit.
pub open spec fn capped(x: int) -> usize {
    if x <= usize::MAX {
        x as usize
    } else {
        usize::MAX
    }
}

/// The sum of `a` and `b`, capped.
pub fn sat_add(a: usize, b: usize) -> (r: usize)
    ensures
        r == capped(a + b),
{
    if a > usize::MAX - b {
        usize::MAX
    } else {
        a + b
    }
}

/// The product of `a` and `b`, capped.
pub fn sat_mul(a: usize, b: usize) -> (r: usize)
    ensures
        r == capped(a * b),
{
    if a == 0 || b == 0 {
        assert(a * b == 0) by (nonlinear_arith)
            requires
                a == 0 || b == 0,
        ;
        0
    } else if a > usize::MAX / b {
        assert(a * b > usize::MAX) by (nonlinear_arith)
            requires
                b > 0,
                a > usize::MAX / b,
        ;
        usize::MAX
    } else {
        assert(a * b <= usize::MAX) by (nonlinear_arith)
            requires
                b > 0,
                a <= usize::MAX / b,
        ;
        a * b
    }
}

/// Capping the terms of a sum before adding them does not change the capped
/// sum.
pub proof fn lemma_capped_sum(x: int, y: int)
    requires
        0 <= x,
        0 <= y,
    ensures
        capped(capped(x) + capped(y)) == capped(x + y),
{
}

/// Capping a factor before multiplying does not change the capped product.
pub proof fn lemma_capped_product(x: int, y: int)
    requires
        0 <= x,
        0 <= y,
    ensures
        capped(capped(x) * y) == capped(x * y),
{
    if x > usize::MAX {
        if y == 0 {
            assert(capped(x) * y == 0) by (nonlinear_arith)
                requires
                    y == 0,
            ;
            assert(x * y == 0) by (nonlinear_arith)
                requires
                    y == 0,
            ;
        } else {
            assert(capped(x) * y >= usize::MAX && x * y > usize::MAX) by (nonlinear_arith)
                requires
                    y >= 1,
                    x > usize::MAX,
                    capped(x) == usize::MAX,
            ;
        }
    }
}

} // verus!
