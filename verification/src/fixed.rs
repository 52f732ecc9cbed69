//! Fixed-point arithmetic: signed multiply-then-divide with exact semantics.
//!
//! Probabilities and accumulator updates are integers scaled by
//! `crate::SCALE`. The one primitive the walkers need is
//! `x * m / d` rounded toward zero, on a signed `x` and non-negative
//! `m` and `d`.

use vstd::prelude::*;
use vstd::arithmetic::div_mod::lemma_div_nonincreasing;
use vstd::arithmetic::div_mod::lemma_div_is_ordered;
use vstd::arithmetic::mul::lemma_mul_inequality;
use vstd::arithmetic::mul::lemma_mul_nonnegative;

verus! {

/// Largest `|x|` that `scale_mul_div` accepts.
pub const FIXED_X_MAX: i128 = 2_000_000_000_000_000_000;

/// Largest multiplier that `scale_mul_div` accepts.
pub const FIXED_M_MAX: i128 = 1_000_000_000_000;

/// `x * m / d` rounded toward zero: the quotient of the magnitudes, with
/// the sign of `x` reapplied.
pub open spec fn scale_div(x: int, m: int, d: int) -> int
    recommends
        m >= 0,
        d >= 1,
{
    if x >= 0 {
        x * m / d
    } else {
        -((-x) * m / d)
    }
}

/// A bound through the division: when `|x| * m <= b * d`, the scaled
/// quotient stays within `b`.
pub proof fn lemma_scale_div_le(x: int, m: int, d: int, b: int)
    requires
        m >= 0,
        d >= 1,
        b >= 0,
        (if x >= 0 { x } else { -x }) * m <= b * d,
    ensures
        -b <= scale_div(x, m, d) <= b,
{
    let xa = if x >= 0 { x } else { -x };
    lemma_mul_nonnegative(xa, m);
    lemma_div_is_ordered(xa * m, b * d, d);
    vstd::arithmetic::div_mod::lemma_div_by_multiple(b, d);
    vstd::arithmetic::div_mod::lemma_div_pos_is_pos(xa * m, d);
}

/// Multiplies a reach probability by an action probability: both scaled by
/// `SCALE`, the product scaled back down. Exact when one factor is `SCALE`.
pub fn reach_mul(r: u64, q: u64) -> (r2: u64)
    requires
        r <= crate::SCALE,
        q <= crate::SCALE,
    ensures
        r2 == r as int * q as int / crate::SCALE as int,
        r2 <= crate::SCALE,
{
    proof {
        lemma_mul_nonnegative(r as int, q as int);
        vstd::arithmetic::div_mod::lemma_div_pos_is_pos(
            r as int * q as int,
            crate::SCALE as int,
        );
        vstd::arithmetic::mul::lemma_mul_upper_bound(
            r as int,
            crate::SCALE as int,
            q as int,
            crate::SCALE as int,
        );
        lemma_div_is_ordered(
            r as int * q as int,
            crate::SCALE as int * crate::SCALE as int,
            crate::SCALE as int,
        );
        vstd::arithmetic::div_mod::lemma_div_by_multiple(
            crate::SCALE as int,
            crate::SCALE as int,
        );
    }
    ((r as u128 * q as u128) / (crate::SCALE as u128)) as u64
}

/// Computes `x * m / d` rounded toward zero.
pub fn scale_mul_div(x: i128, m: i128, d: i128) -> (r: i128)
    requires
        -FIXED_X_MAX <= x <= FIXED_X_MAX,
        0 <= m <= FIXED_M_MAX,
        1 <= d,
    ensures
        r == scale_div(x as int, m as int, d as int),
{
    let neg = x < 0;
    let xa: u128 = if neg { (-x) as u128 } else { x as u128 };
    proof {
        lemma_mul_inequality(xa as int, FIXED_X_MAX as int, m as int);
        lemma_mul_inequality(m as int, FIXED_M_MAX as int, FIXED_X_MAX as int);
        vstd::arithmetic::mul::lemma_mul_is_commutative(FIXED_X_MAX as int, m as int);
        lemma_div_nonincreasing((xa * (m as u128)) as int, d as int);
        vstd::arithmetic::mul::lemma_mul_nonnegative(xa as int, m as int);
        vstd::arithmetic::div_mod::lemma_div_pos_is_pos((xa * (m as u128)) as int, d as int);
    }
    let q: u128 = (xa * (m as u128)) / (d as u128);
    if neg {
        -(q as i128)
    } else {
        q as i128
    }
}

} // verus!
