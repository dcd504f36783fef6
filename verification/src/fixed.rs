//! Unit-interval fixed-point arithmetic shared by both color engines.
//!
//! A fraction in `[0, 1]` is stored as a numerator over [`ONE`]. The scale
//! is `512 * 255 = 130560`, which is divisible by 255 (8-bit channel
//! scaling), by 510 (the lightness denominator) and by 6 (the hue sector
//! count), so those conversions introduce no rounding of their own.

use vstd::arithmetic::div_mod::{
    lemma_div_is_ordered, lemma_fundamental_div_mod, lemma_fundamental_div_mod_converse,
    lemma_mod_division_less_than_divisor,
};
use vstd::prelude::*;

verus! {

/// The fixed-point representation of `1.0`.
pub const ONE: u32 = 130560;

/// The fixed-point representation of `0.5`.
pub const HALF: u32 = 65280;

/// `n / d` rounded to the nearest integer, halves rounding up.
pub open spec fn round_div(n: int, d: int) -> int {
    (2 * n + d) / (2 * d)
}

/// The rounded quotient is within half a divisor of the exact quotient:
/// `2*n - d < 2*d*round_div(n, d) <= 2*n + d`.
pub proof fn lemma_round_div_bounds(n: int, d: int)
    requires
        0 < d,
    ensures
        2 * n - d < 2 * d * round_div(n, d),
        2 * d * round_div(n, d) <= 2 * n + d,
{
    lemma_fundamental_div_mod(2 * n + d, 2 * d);
    lemma_mod_division_less_than_divisor(2 * n + d, 2 * d);
}

/// A quotient already within half a divisor of an integer rounds to it.
pub proof fn lemma_round_div_exact(q: int, e: int, d: int)
    requires
        0 < d,
        -d <= 2 * e < d,
    ensures
        round_div(q * d + e, d) == q,
{
    assert(2 * (q * d + e) + d == q * (2 * d) + (2 * e + d)) by (nonlinear_arith);
    lemma_fundamental_div_mod_converse(2 * (q * d + e) + d, 2 * d, q, 2 * e + d);
}

/// Adding a multiple of the divisor shifts the rounded quotient by the
/// same multiple.
pub proof fn lemma_round_div_shift(n: int, q: int, d: int)
    requires
        0 < d,
    ensures
        round_div(n + q * d, d) == round_div(n, d) + q,
{
    let q0 = round_div(n, d);
    let r0 = (2 * n + d) % (2 * d);
    lemma_fundamental_div_mod(2 * n + d, 2 * d);
    lemma_mod_division_less_than_divisor(2 * n + d, 2 * d);
    assert(2 * (n + q * d) + d == (q0 + q) * (2 * d) + r0) by (nonlinear_arith)
        requires
            2 * n + d == (2 * d) * q0 + r0,
    ;
    lemma_fundamental_div_mod_converse(2 * (n + q * d) + d, 2 * d, q0 + q, r0);
}

/// Rounded division is monotone in the numerator.
pub proof fn lemma_round_div_mono(n1: int, n2: int, d: int)
    requires
        0 < d,
        n1 <= n2,
    ensures
        round_div(n1, d) <= round_div(n2, d),
{
    lemma_div_is_ordered(2 * n1 + d, 2 * n2 + d, 2 * d);
}

/// A nonnegative numerator gives a nonnegative rounded quotient.
pub proof fn lemma_round_div_nonneg(n: int, d: int)
    requires
        0 < d,
        0 <= n,
    ensures
        0 <= round_div(n, d),
{
    lemma_round_div_bounds(n, d);
    assert(0 <= round_div(n, d)) by (nonlinear_arith)
        requires
            0 < d,
            0 <= n,
            2 * n - d < 2 * d * round_div(n, d),
    ;
}

/// `n / d` rounded to the nearest integer, halves rounding up.
pub fn round_div64(n: u64, d: u64) -> (q: u64)
    requires
        0 < d,
        n <= 0x3fff_ffff_ffff_ffff,
        d <= 0x3fff_ffff_ffff_ffff,
    ensures
        q == round_div(n as int, d as int),
{
    (2 * n + d) / (2 * d)
}

} // verus!
