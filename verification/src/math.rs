//! Saturating 128-bit signed arithmetic, mirrored exactly by spec
//! functions so that contracts can state the engine's clamping behaviour.
use vstd::prelude::*;

verus! {

/// `x` clamped to the representable range of `i128`.
pub open spec fn clamp_i128(x: int) -> int {
    if x > i128::MAX {
        i128::MAX as int
    } else if x < i128::MIN {
        i128::MIN as int
    } else {
        x
    }
}

/// `x` clamped to the representable range of `u128`.
pub open spec fn clamp_u128(x: int) -> int {
    if x > u128::MAX {
        u128::MAX as int
    } else if x < 0 {
        0
    } else {
        x
    }
}

/// Saturating `a + b` on `i128`.
pub fn sat_add_i128(a: i128, b: i128) -> (r: i128)
    ensures
        r == clamp_i128(a + b),
{
    match a.checked_add(b) {
        Some(v) => v,
        None => if b > 0 {
            i128::MAX
        } else {
            i128::MIN
        },
    }
}

/// Saturating `a - b` on `i128`.
pub fn sat_sub_i128(a: i128, b: i128) -> (r: i128)
    ensures
        r == clamp_i128(a - b),
{
    match a.checked_sub(b) {
        Some(v) => v,
        None => if b < 0 {
            i128::MAX
        } else {
            i128::MIN
        },
    }
}

/// Saturating `a * b` on `i128`.
pub fn sat_mul_i128(a: i128, b: i128) -> (r: i128)
    ensures
        r == clamp_i128(a * b),
{
    match a.checked_mul(b) {
        Some(v) => v,
        None => {
            // The product overflowed, so neither factor is zero and the sign
            // of the true product picks the saturation bound.
            proof {
                if (a > 0) == (b > 0) {
                    assert(a * b > 0) by (nonlinear_arith)
                        requires
                            a != 0 && b != 0 && ((a > 0) == (b > 0)),
                    ;
                } else {
                    assert(a * b < 0) by (nonlinear_arith)
                        requires
                            a != 0 && b != 0 && ((a > 0) != (b > 0)),
                    ;
                }
            }
            if (a > 0) == (b > 0) {
                i128::MAX
            } else {
                i128::MIN
            }
        },
    }
}

/// Truncating division `a / b` for `b > 0`, as Rust's `/` computes it on
/// signed integers (round toward zero), stated over mathematical integers.
pub open spec fn div_trunc(a: int, b: int) -> int {
    if a >= 0 {
        a / b
    } else {
        -((-a) / b)
    }
}

/// Truncating `a / b`, returning 0 when the division is unavailable
/// (`b == 0`, or the lone overflowing quotient), as the engine's funding
/// arithmetic does.
pub fn div_trunc_or_zero(a: i128, b: i128) -> (r: i128)
    ensures
        b > 0 ==> r == div_trunc(a as int, b as int),
        b == 0 ==> r == 0,
{
    match a.checked_div(b) {
        Some(v) => v,
        None => 0,
    }
}

} // verus!
