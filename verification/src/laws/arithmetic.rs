//! What holds of the division of the operator model.

use vstd::prelude::*;
use crate::op::{div_toward_zero, magnitude};

verus! {

/// Division rounds toward zero: what is left of the dividend beside the quotient times the
/// divisor is smaller in magnitude than the divisor, and is zero or has the sign of the
/// dividend.
pub proof fn lemma_division_rounds_toward_zero(a: int, b: int)
    requires
        b != 0,
    ensures
        magnitude(a - div_toward_zero(a, b) * b) < magnitude(b),
        a >= 0 ==> a - div_toward_zero(a, b) * b >= 0,
        a <= 0 ==> a - div_toward_zero(a, b) * b <= 0,
{
    let x = magnitude(a);
    let d = magnitude(b);
    let q = x / d;
    assert(0 <= x - q * d < d && q * (-d) == -(q * d) && (-q) * d == -(q * d) && (-q) * (-d) == q
        * d) by (nonlinear_arith)
        requires
            x >= 0,
            d > 0,
            q == x / d,
    ;
}

} // verus!
