//! Closed-form Bézier evaluation at fixed parameter steps.
//!
//! Curves are flattened at one hundred uniform parameter values
//! `t = i/100`; the polynomial blend is computed exactly in integers,
//! since all blend coefficients are integers over the common denominator.

use vstd::prelude::*;
use crate::fx::{divt128, fx_clamp, fx_sat, tdiv};

verus! {

/// Quadratic blend of three fixed-point scalars at `t = i/100`.
pub open spec fn bez2(p0: int, p1: int, p2: int, i: int) -> int {
    let u = 100 - i;
    let c0 = u * u;
    let c1 = 2 * u * i;
    let c2 = i * i;
    fx_sat(tdiv(c0 * p0 + c1 * p1 + c2 * p2, 10000))
}

/// Cubic blend of four fixed-point scalars at `t = i/100`.
pub open spec fn bez3(p0: int, p1: int, p2: int, p3: int, i: int) -> int {
    let u = 100 - i;
    let c0 = u * u * u;
    let c1 = 3 * (u * u) * i;
    let c2 = 3 * u * (i * i);
    let c3 = i * i * i;
    fx_sat(tdiv(c0 * p0 + c1 * p1 + c2 * p2 + c3 * p3, 1000000))
}

/// A sampled point of a quadratic Bézier curve, both axes blended at
/// `t = i/100`, in the curve's own coordinate space.
pub open spec fn quad_point(
    start: (int, int),
    control: (int, int),
    end: (int, int),
    i: int,
) -> (int, int) {
    (bez2(start.0, control.0, end.0, i), bez2(start.1, control.1, end.1, i))
}

/// A sampled point of a cubic Bézier curve at `t = i/100`.
pub open spec fn cubic_point(
    start: (int, int),
    control1: (int, int),
    control2: (int, int),
    end: (int, int),
    i: int,
) -> (int, int) {
    (
        bez3(start.0, control1.0, control2.0, end.0, i),
        bez3(start.1, control1.1, control2.1, end.1, i),
    )
}

fn bez2_axis(p0: i64, p1: i64, p2: i64, i: i64) -> (r: i64)
    requires
        0 <= i <= 100,
    ensures
        r as int == bez2(p0 as int, p1 as int, p2 as int, i as int),
{
    let u: i128 = 100 - (i as i128);
    let ii: i128 = i as i128;
    proof {
        assert(0 <= u * u <= 10000 && 0 <= 2 * u * ii <= 10000 && 0 <= ii * ii <= 10000)
            by (nonlinear_arith)
            requires
                0 <= u <= 100,
                0 <= ii <= 100,
                u + ii == 100,
        ;
        lemma_coeff_term(u * u, p0 as int);
        lemma_coeff_term(2 * u * ii, p1 as int);
        lemma_coeff_term(ii * ii, p2 as int);
    }
    let c0: i128 = u * u;
    let c1: i128 = 2 * u * ii;
    let c2: i128 = ii * ii;
    let total: i128 = c0 * (p0 as i128) + c1 * (p1 as i128) + c2 * (p2 as i128);
    let q: i128 = divt128(total, 10000);
    fx_clamp(q)
}

fn bez3_axis(p0: i64, p1: i64, p2: i64, p3: i64, i: i64) -> (r: i64)
    requires
        0 <= i <= 100,
    ensures
        r as int == bez3(p0 as int, p1 as int, p2 as int, p3 as int, i as int),
{
    let u: i128 = 100 - (i as i128);
    let ii: i128 = i as i128;
    proof {
        assert(0 <= u * u <= 10000 && 0 <= ii * ii <= 10000 && 0 <= u * u * u <= 1000000 && 0 <= 3
            * (u * u) * ii <= 3000000 && 0 <= 3 * u * (ii * ii) <= 3000000 && 0 <= ii * ii * ii
            <= 1000000) by (nonlinear_arith)
            requires
                0 <= u <= 100,
                0 <= ii <= 100,
        ;
        lemma_coeff_term(u * u * u, p0 as int);
        lemma_coeff_term(3 * (u * u) * ii, p1 as int);
        lemma_coeff_term(3 * u * (ii * ii), p2 as int);
        lemma_coeff_term(ii * ii * ii, p3 as int);
    }
    let c0: i128 = u * u * u;
    let c1: i128 = 3 * (u * u) * ii;
    let c2: i128 = 3 * u * (ii * ii);
    let c3: i128 = ii * ii * ii;
    let total: i128 = c0 * (p0 as i128) + c1 * (p1 as i128) + c2 * (p2 as i128) + c3 * (
    p3 as i128);
    let q: i128 = divt128(total, 1000000);
    fx_clamp(q)
}

proof fn lemma_coeff_term(c: int, p: int)
    requires
        0 <= c <= 3000000,
        i64::MIN <= p <= i64::MAX,
    ensures
        -(0x8000000000000000 * 3000000) <= c * p <= 0x8000000000000000 * 3000000,
{
    assert(-(0x8000000000000000 * 3000000) <= c * p <= 0x8000000000000000 * 3000000)
        by (nonlinear_arith)
        requires
            0 <= c <= 3000000,
            -0x8000000000000000 <= p <= 0x7fffffffffffffff,
    ;
}

/// One sample of a quadratic Bézier curve, in the curve's coordinate space.
pub fn quadratic_bezier_curve(
    start: (i64, i64),
    control: (i64, i64),
    end: (i64, i64),
    i: i64,
) -> (r: (i64, i64))
    requires
        0 <= i <= 100,
    ensures
        (r.0 as int, r.1 as int) == quad_point(
            (start.0 as int, start.1 as int),
            (control.0 as int, control.1 as int),
            (end.0 as int, end.1 as int),
            i as int,
        ),
{
    (bez2_axis(start.0, control.0, end.0, i), bez2_axis(start.1, control.1, end.1, i))
}

/// One sample of a cubic Bézier curve, in the curve's coordinate space.
pub fn cubic_bezier_curve(
    start: (i64, i64),
    control1: (i64, i64),
    control2: (i64, i64),
    end: (i64, i64),
    i: i64,
) -> (r: (i64, i64))
    requires
        0 <= i <= 100,
    ensures
        (r.0 as int, r.1 as int) == cubic_point(
            (start.0 as int, start.1 as int),
            (control1.0 as int, control1.1 as int),
            (control2.0 as int, control2.1 as int),
            (end.0 as int, end.1 as int),
            i as int,
        ),
{
    (
        bez3_axis(start.0, control1.0, control2.0, end.0, i),
        bez3_axis(start.1, control1.1, control2.1, end.1, i),
    )
}

} // verus!
