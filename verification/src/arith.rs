//! Small nonlinear arithmetic facts used to bound the fixed-point
//! computations of the clustering engine.

use vstd::prelude::*;

verus! {

/// A product is bounded by the product of the bounds.
pub proof fn lemma_mul_bounds(x: int, y: int, bx: int, by: int)
    by (nonlinear_arith)
    requires
        -bx <= x <= bx,
        -by <= y <= by,
        0 <= bx,
        0 <= by,
    ensures
        -(bx * by) <= x * y <= bx * by,
{
}

/// A square is never negative.
pub proof fn lemma_square_nonneg(x: int)
    by (nonlinear_arith)
    ensures
        0 <= x * x,
{
}

/// Multiplying by a factor known to be one changes nothing.
pub proof fn lemma_mul_one(a: int, t: int)
    by (nonlinear_arith)
    requires
        t == 1,
    ensures
        a * t == a,
{
}

/// A nonzero number has a strictly positive square.
pub proof fn lemma_square_pos(x: int)
    by (nonlinear_arith)
    requires
        x != 0,
    ensures
        0 < x * x,
{
}

} // verus!
