//! Fixed-point scalar arithmetic.
//!
//! Every coordinate in this crate is an `i64` holding millionths of a unit
//! (so `1_000_000` stands for `1.0`).  All operations saturate at `FX_MAX`
//! instead of overflowing; intermediate products are computed in `i128`,
//! which can never overflow for operands in range.  Division truncates
//! toward zero, like floating-point-to-integer conversion would.

use vstd::prelude::*;

verus! {

/// Number of fixed-point steps per unit: values carry millionths.
pub const SCALE: i64 = 1_000_000;

/// One hundred units, the size of the canonical display box.
pub const HUNDRED: i64 = 100_000_000;

/// Saturation bound for every fixed-point value.
pub const FX_MAX: i64 = 4_000_000_000_000_000_000;

/// A value the arithmetic in this crate can produce: within the saturation bound.
pub open spec fn fx_ok(v: int) -> bool {
    -(FX_MAX as int) <= v <= FX_MAX as int
}

/// Clamp an unbounded integer into the saturation range.
pub open spec fn fx_sat(v: int) -> int {
    if v > FX_MAX as int {
        FX_MAX as int
    } else if v < -(FX_MAX as int) {
        -(FX_MAX as int)
    } else {
        v
    }
}

/// Absolute value of a mathematical integer.
pub open spec fn iabs(a: int) -> int {
    if a < 0 {
        -a
    } else {
        a
    }
}

/// Division truncating toward zero (the rounding of `a / b` on hardware),
/// defined as 0 when the divisor is 0 so that it is total.
pub open spec fn tdiv(a: int, b: int) -> int {
    if b == 0 {
        0
    } else {
        let q = iabs(a) / iabs(b);
        if (a < 0) != (b < 0) {
            -q
        } else {
            q
        }
    }
}

/// Saturating fixed-point addition.
pub open spec fn fadd(a: int, b: int) -> int {
    fx_sat(a + b)
}

/// Saturating fixed-point subtraction.
pub open spec fn fsub(a: int, b: int) -> int {
    fx_sat(a - b)
}

/// Saturating fixed-point multiplication: `a * b` rescaled by `SCALE`.
pub open spec fn fmul(a: int, b: int) -> int {
    fx_sat(tdiv(a * b, SCALE as int))
}

/// Saturating fixed-point division: `a / b` rescaled by `SCALE`; 0 when `b` is 0.
pub open spec fn fdiv(a: int, b: int) -> int {
    if b == 0 {
        0
    } else {
        fx_sat(tdiv(a * (SCALE as int), b))
    }
}

/// Exact negation (in-range values negate without overflow).
pub open spec fn fneg(a: int) -> int {
    fx_sat(-a)
}

pub proof fn lemma_mul_bound(a: int, b: int)
    requires
        i64::MIN <= a <= i64::MAX,
        i64::MIN <= b <= i64::MAX,
    ensures
        -0x40000000000000000000000000000000 <= a * b <= 0x40000000000000000000000000000000,
        a * b != i128::MIN,
{
    assert(-0x40000000000000000000000000000000 <= a * b
        <= 0x40000000000000000000000000000000) by (nonlinear_arith)
        requires
            -0x8000000000000000 <= a <= 0x7fffffffffffffff,
            -0x8000000000000000 <= b <= 0x7fffffffffffffff,
    ;
}

proof fn lemma_div_le(a: int, b: int)
    requires
        a >= 0,
        b >= 1,
    ensures
        0 <= a / b <= a,
{
    assert(0 <= a / b <= a) by (nonlinear_arith)
        requires
            a >= 0,
            b >= 1,
    ;
}

/// Truncating division on `i128`, matching `tdiv`.
pub fn divt128(a: i128, b: i128) -> (q: i128)
    requires
        b != 0,
        a != i128::MIN,
        b != i128::MIN,
    ensures
        q as int == tdiv(a as int, b as int),
{
    let na: bool = a < 0;
    let nb: bool = b < 0;
    let ua: u128 = if na {
        (-a) as u128
    } else {
        a as u128
    };
    let ub: u128 = if nb {
        (-b) as u128
    } else {
        b as u128
    };
    proof {
        assert(ua as int == iabs(a as int));
        assert(ub as int == iabs(b as int));
        lemma_div_le(ua as int, ub as int);
    }
    let uq: u128 = ua / ub;
    let q0: i128 = uq as i128;
    if na != nb {
        -q0
    } else {
        q0
    }
}

/// Clamp an `i128` into the saturation range and narrow it.
pub fn fx_clamp(v: i128) -> (r: i64)
    ensures
        r as int == fx_sat(v as int),
        fx_ok(r as int),
{
    if v > FX_MAX as i128 {
        FX_MAX
    } else if v < -(FX_MAX as i128) {
        -FX_MAX
    } else {
        v as i64
    }
}

/// Saturating addition.
pub fn fx_add(a: i64, b: i64) -> (r: i64)
    ensures
        r as int == fadd(a as int, b as int),
        fx_ok(r as int),
{
    fx_clamp((a as i128) + (b as i128))
}

/// Saturating subtraction.
pub fn fx_sub(a: i64, b: i64) -> (r: i64)
    ensures
        r as int == fsub(a as int, b as int),
        fx_ok(r as int),
{
    fx_clamp((a as i128) - (b as i128))
}

/// Saturating fixed-point multiplication.
pub fn fx_mul(a: i64, b: i64) -> (r: i64)
    ensures
        r as int == fmul(a as int, b as int),
        fx_ok(r as int),
{
    proof {
        lemma_mul_bound(a as int, b as int);
    }
    let p: i128 = (a as i128) * (b as i128);
    let q: i128 = divt128(p, SCALE as i128);
    fx_clamp(q)
}

/// Saturating fixed-point division; 0 when the divisor is 0.
pub fn fx_div(a: i64, b: i64) -> (r: i64)
    ensures
        r as int == fdiv(a as int, b as int),
        fx_ok(r as int),
{
    if b == 0 {
        0
    } else {
        proof {
            lemma_mul_bound(a as int, SCALE as int);
        }
        let p: i128 = (a as i128) * (SCALE as i128);
        let q: i128 = divt128(p, b as i128);
        fx_clamp(q)
    }
}

/// Saturating negation.
pub fn fx_neg(a: i64) -> (r: i64)
    ensures
        r as int == fneg(a as int),
        fx_ok(r as int),
{
    fx_clamp(-(a as i128))
}

/// Normalization of one coordinate against a viewBox dimension: the value
/// divided by `dim / 100`, mapping the source range onto the 0-100 box.
/// Total, with 0 for a zero dimension; callers reject that case first.
pub open spec fn fnorm(v: int, dim: int) -> int {
    if dim == 0 {
        0
    } else {
        fx_sat(tdiv(v * 100000000, dim))
    }
}

/// Normalize a coordinate against a nonzero viewBox dimension.
pub fn norm_coord(v: i64, dim: i64) -> (r: i64)
    requires
        dim != 0,
    ensures
        r as int == fnorm(v as int, dim as int),
        fx_ok(r as int),
{
    proof {
        lemma_mul_bound(v as int, 100000000);
    }
    let p: i128 = (v as i128) * 100_000_000;
    let q: i128 = divt128(p, dim as i128);
    fx_clamp(q)
}

/// Halving, truncating toward zero.
pub fn fx_half(a: i64) -> (r: i64)
    ensures
        r as int == tdiv(a as int, 2),
{
    let q: i128 = divt128(a as i128, 2);
    proof {
        assert(iabs(a as int) / 2 <= iabs(a as int));
    }
    q as i64
}

} // verus!
