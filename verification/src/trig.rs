//! Fixed-point trigonometry and square roots for the arc evaluator and the
//! rotation and skew transforms.
//!
//! Angles are carried in millionths of a radian.  Sine and cosine reduce
//! the angle into a quarter-period window and evaluate a truncated Taylor
//! polynomial there; the arc tangent reduces its argument below an eighth
//! of a turn and does the same.  Each function's contract pins its result
//! to the specification-level mirror of the same integer computation, so
//! equal inputs give equal outputs everywhere.

use vstd::prelude::*;
use vstd::arithmetic::div_mod::{
    lemma_div_is_ordered, lemma_div_pos_is_pos, lemma_fundamental_div_mod_converse,
};
use crate::fx::{divt128, fx_ok, iabs, tdiv};

verus! {

/// A quarter turn, in millionths of a radian.
pub const HALF_PI: i64 = 1_570_796;

/// Half of `HALF_PI`: the width of the reduction window.
pub const QUARTER_PI: i64 = 785_398;

/// Half a turn.
pub const PI_FX: i64 = 3_141_593;

/// A full turn.
pub const TWO_PI: i64 = 6_283_185;

/// The tangent of an eighth turn, the threshold for arc-tangent reduction.
pub const TAN_EIGHTH: i64 = 414_214;

/// A multiple of four quarter turns large enough to shift any in-range
/// angle into the non-negative numbers before reduction.
pub const RED_OFFSET: i64 = 6_283_184 * 700_000_000_000;

pub proof fn lemma_tdiv_range(a: int, b: int, m: int)
    requires
        1 <= b,
        0 <= m,
        -((m + 1) * b) < a < (m + 1) * b,
    ensures
        -m <= tdiv(a, b) <= m,
{
    let ua = iabs(a);
    let q = ua / b;
    lemma_div_pos_is_pos(ua, b);
    lemma_div_is_ordered(ua, (m + 1) * b - 1, b);
    assert((m + 1) * b == m * b + b) by (nonlinear_arith);
    lemma_fundamental_div_mod_converse((m + 1) * b - 1, b, m, b - 1);
}

/// Truncating division whose result is known to stay within `[-m, m]`.
pub fn divt_bounded(a: i128, b: i128, m: i64) -> (q: i64)
    requires
        1 <= b,
        0 <= m,
        a != i128::MIN,
        -((m as int + 1) * (b as int)) < (a as int) && (a as int) < (m as int + 1) * (b as int),
    ensures
        q as int == tdiv(a as int, b as int),
        -m <= q <= m,
{
    proof {
        lemma_tdiv_range(a as int, b as int, m as int);
    }
    let r: i128 = divt128(a, b);
    r as i64
}

/// Quarter-turn index of a reduced angle.
pub open spec fn red_k(a: int) -> int {
    (a + RED_OFFSET + QUARTER_PI) / (HALF_PI as int)
}

/// Quadrant (quarter-turn index modulo 4).
pub open spec fn red_q(a: int) -> int {
    red_k(a) % 4
}

/// Residual angle within `[-QUARTER_PI, QUARTER_PI)` around a quarter turn.
pub open spec fn red_r(a: int) -> int {
    (a + RED_OFFSET + QUARTER_PI) % (HALF_PI as int) - QUARTER_PI
}

/// Taylor polynomial for sine on the reduction window.
pub open spec fn spec_poly_sin(r: int) -> int {
    let r2 = tdiv(r * r, 1000000);
    let a3 = tdiv(r2 * r, 1000000);
    let a5 = tdiv(a3 * r2, 1000000);
    let a7 = tdiv(a5 * r2, 1000000);
    r - tdiv(a3, 6) + tdiv(a5, 120) - tdiv(a7, 5040)
}

/// Taylor polynomial for cosine on the reduction window.
pub open spec fn spec_poly_cos(r: int) -> int {
    let r2 = tdiv(r * r, 1000000);
    let c4 = tdiv(r2 * r2, 1000000);
    let c6 = tdiv(c4 * r2, 1000000);
    1000000 - tdiv(r2, 2) + tdiv(c4, 24) - tdiv(c6, 720)
}

/// Sine of an angle in millionths of a radian.
pub open spec fn spec_sin(a: int) -> int {
    let r = red_r(a);
    let q = red_q(a);
    if q == 0 {
        spec_poly_sin(r)
    } else if q == 1 {
        spec_poly_cos(r)
    } else if q == 2 {
        -spec_poly_sin(r)
    } else {
        -spec_poly_cos(r)
    }
}

/// Cosine of an angle in millionths of a radian.
pub open spec fn spec_cos(a: int) -> int {
    let r = red_r(a);
    let q = red_q(a);
    if q == 0 {
        spec_poly_cos(r)
    } else if q == 1 {
        -spec_poly_sin(r)
    } else if q == 2 {
        -spec_poly_cos(r)
    } else {
        spec_poly_sin(r)
    }
}

fn reduce(a: i64) -> (qr: (u64, i64))
    requires
        fx_ok(a as int),
    ensures
        qr.0 as int == red_q(a as int),
        qr.1 as int == red_r(a as int),
        -QUARTER_PI <= qr.1 <= QUARTER_PI,
{
    let shifted: i64 = a + RED_OFFSET;
    let u: u64 = (shifted as u64) + 785_398;
    let k: u64 = u / 1_570_796;
    let m: u64 = u % 1_570_796;
    let q: u64 = k % 4;
    let r: i64 = (m as i64) - 785_398;
    (q, r)
}

fn poly_sin_cos(r: i64) -> (sc: (i64, i64))
    requires
        -QUARTER_PI <= r <= QUARTER_PI,
    ensures
        sc.0 as int == spec_poly_sin(r as int),
        sc.1 as int == spec_poly_cos(r as int),
        -1100000 <= sc.0 <= 1100000,
        -1100000 <= sc.1 <= 1100000,
{
    proof {
        assert((r as int) * (r as int) < 616851 * 1000000) by (nonlinear_arith)
            requires
                -785398 <= r as int <= 785398,
        ;
        assert((r as int) * (r as int) >= 0) by (nonlinear_arith);
    }
    let rr: i128 = (r as i128) * (r as i128);
    let r2: i64 = divt_bounded(rr, 1000000, 616850);
    proof {
        assert(0 <= tdiv(rr as int, 1000000));
        assert(-(484475 * 1000000) < (r2 as int) * (r as int) < 484475 * 1000000)
            by (nonlinear_arith)
            requires
                0 <= r2 as int <= 616850,
                -785398 <= r as int <= 785398,
        ;
    }
    let a3: i64 = divt_bounded((r2 as i128) * (r as i128), 1000000, 484474);
    proof {
        assert(-(298849 * 1000000) < (a3 as int) * (r2 as int) < 298849 * 1000000)
            by (nonlinear_arith)
            requires
                -484474 <= a3 as int <= 484474,
                0 <= r2 as int <= 616850,
        ;
    }
    let a5: i64 = divt_bounded((a3 as i128) * (r2 as i128), 1000000, 298848);
    proof {
        assert(-(184346 * 1000000) < (a5 as int) * (r2 as int) < 184346 * 1000000)
            by (nonlinear_arith)
            requires
                -298848 <= a5 as int <= 298848,
                0 <= r2 as int <= 616850,
        ;
    }
    let a7: i64 = divt_bounded((a5 as i128) * (r2 as i128), 1000000, 184345);
    let s3: i64 = divt_bounded(a3 as i128, 6, 80746);
    let s5: i64 = divt_bounded(a5 as i128, 120, 2491);
    let s7: i64 = divt_bounded(a7 as i128, 5040, 37);
    let sin_v: i64 = r - s3 + s5 - s7;
    proof {
        assert(0 <= (r2 as int) * (r2 as int) < 380505 * 1000000) by (nonlinear_arith)
            requires
                0 <= r2 as int <= 616850,
        ;
    }
    let c4: i64 = divt_bounded((r2 as i128) * (r2 as i128), 1000000, 380504);
    proof {
        assert(-(234715 * 1000000) < (c4 as int) * (r2 as int) < 234715 * 1000000)
            by (nonlinear_arith)
            requires
                -380504 <= c4 as int <= 380504,
                0 <= r2 as int <= 616850,
        ;
    }
    let c6: i64 = divt_bounded((c4 as i128) * (r2 as i128), 1000000, 234714);
    let d2: i64 = divt_bounded(r2 as i128, 2, 308425);
    let d4: i64 = divt_bounded(c4 as i128, 24, 15855);
    let d6: i64 = divt_bounded(c6 as i128, 720, 326);
    let cos_v: i64 = 1_000_000 - d2 + d4 - d6;
    (sin_v, cos_v)
}

/// Sine in fixed point.
pub fn sin_fx(a: i64) -> (r: i64)
    requires
        fx_ok(a as int),
    ensures
        r as int == spec_sin(a as int),
        -1100000 <= r <= 1100000,
{
    let (q, rr) = reduce(a);
    let (s, c) = poly_sin_cos(rr);
    if q == 0 {
        s
    } else if q == 1 {
        c
    } else if q == 2 {
        -s
    } else {
        -c
    }
}

/// Cosine in fixed point.
pub fn cos_fx(a: i64) -> (r: i64)
    requires
        fx_ok(a as int),
    ensures
        r as int == spec_cos(a as int),
        -1100000 <= r <= 1100000,
{
    let (q, rr) = reduce(a);
    let (s, c) = poly_sin_cos(rr);
    if q == 0 {
        c
    } else if q == 1 {
        -s
    } else if q == 2 {
        -c
    } else {
        s
    }
}

/// The non-negative integer square root, by its defining property.
pub open spec fn sqrt_floor(x: int) -> int {
    choose|r: int| 0 <= r && #[trigger] (r * r) <= x && x < (r + 1) * (r + 1)
}

proof fn lemma_sqrt_exists(x: int) -> (r: int)
    requires
        0 <= x,
    ensures
        0 <= r && r * r <= x && x < (r + 1) * (r + 1),
    decreases x,
{
    if x == 0 {
        0
    } else {
        let p = lemma_sqrt_exists(x - 1);
        if (p + 1) * (p + 1) <= x {
            assert(x < (p + 2) * (p + 2)) by (nonlinear_arith)
                requires
                    0 <= p,
                    x - 1 < (p + 1) * (p + 1),
                    (p + 1) * (p + 1) <= x,
            ;
            p + 1
        } else {
            p
        }
    }
}

pub proof fn lemma_sqrt_floor_is(x: int, r: int)
    requires
        0 <= x,
        0 <= r,
        r * r <= x,
        x < (r + 1) * (r + 1),
    ensures
        sqrt_floor(x) == r,
{
    let w = lemma_sqrt_exists(x);
    assert(0 <= w && (w * w) <= x && x < (w + 1) * (w + 1));
    assert(exists|q: int| 0 <= q && #[trigger] (q * q) <= x && x < (q + 1) * (q + 1));
    let s = sqrt_floor(x);
    assert(0 <= s && s * s <= x && x < (s + 1) * (s + 1));
    if s < r {
        assert((s + 1) * (s + 1) <= r * r) by (nonlinear_arith)
            requires
                0 <= s,
                s + 1 <= r,
        ;
    }
    if r < s {
        assert((r + 1) * (r + 1) <= s * s) by (nonlinear_arith)
            requires
                0 <= r,
                r + 1 <= s,
        ;
    }
}

/// Square root of a fixed-point value; 0 for negative input.
pub open spec fn fsqrt(v: int) -> int {
    if v <= 0 {
        0
    } else {
        sqrt_floor(v * 1000000)
    }
}

fn isqrt_u(x: u128) -> (r: u64)
    requires
        x as int <= 9300000000000000000000000,
    ensures
        0 <= r as int,
        (r as int) * (r as int) <= x as int,
        (x as int) < (r as int + 1) * (r as int + 1),
        r as int <= 4000000000000,
{
    let mut lo: u64 = 0;
    let mut hi: u64 = 4_000_000_000_001;
    proof {
        assert((4000000000001 as int) * (4000000000001 as int) > 9300000000000000000000000)
            by (nonlinear_arith);
    }
    while lo + 1 < hi
        invariant
            lo < hi <= 4000000000001,
            (lo as int) * (lo as int) <= x as int,
            (x as int) < (hi as int) * (hi as int),
            x as int <= 9300000000000000000000000,
        decreases hi - lo,
    {
        let mid: u64 = lo + (hi - lo) / 2;
        proof {
            assert(lo < mid < hi);
            assert((mid as int) * (mid as int) <= (4000000000001 as int) * (4000000000001 as int))
                by (nonlinear_arith)
                requires
                    0 <= mid as int <= 4000000000001,
            ;
        }
        let m2: u128 = (mid as u128) * (mid as u128);
        if m2 <= x {
            lo = mid;
        } else {
            hi = mid;
        }
    }
    lo
}

/// Fixed-point square root.
pub fn sqrt_fx(v: i64) -> (r: i64)
    ensures
        r as int == fsqrt(v as int),
        0 <= r as int <= 4000000000000,
{
    if v <= 0 {
        0
    } else {
        proof {
            assert((v as int) * 1000000 <= 9300000000000000000000000) by (nonlinear_arith)
                requires
                    0 < v as int <= 9223372036854775807,
            ;
        }
        let x: u128 = (v as u128) * 1_000_000;
        let r: u64 = isqrt_u(x);
        proof {
            lemma_sqrt_floor_is((v as int) * 1000000, r as int);
        }
        r as i64
    }
}

/// Taylor polynomial for the arc tangent below an eighth turn.
pub open spec fn spec_atan_poly(u: int) -> int {
    let u2 = tdiv(u * u, 1000000);
    let t3 = tdiv(u2 * u, 1000000);
    let t5 = tdiv(t3 * u2, 1000000);
    let t7 = tdiv(t5 * u2, 1000000);
    let t9 = tdiv(t7 * u2, 1000000);
    let t11 = tdiv(t9 * u2, 1000000);
    u - tdiv(t3, 3) + tdiv(t5, 5) - tdiv(t7, 7) + tdiv(t9, 9) - tdiv(t11, 11)
}

/// Arc tangent of a ratio within the unit interval.
pub open spec fn spec_atan_unit(t: int) -> int {
    if t > TAN_EIGHTH as int {
        QUARTER_PI + spec_atan_poly(tdiv((t - 1000000) * 1000000, t + 1000000))
    } else {
        spec_atan_poly(t)
    }
}

/// The angle of the point `(x, y)` in `(-PI_FX, PI_FX]`; 0 at the origin.
pub open spec fn spec_atan2(y: int, x: int) -> int {
    if x == 0 && y == 0 {
        0
    } else {
        let ax = iabs(x);
        let ay = iabs(y);
        let base = if ax >= ay {
            spec_atan_unit(tdiv(ay * 1000000, ax))
        } else {
            HALF_PI - spec_atan_unit(tdiv(ax * 1000000, ay))
        };
        let flipped = if x < 0 {
            PI_FX - base
        } else {
            base
        };
        if y < 0 {
            -flipped
        } else {
            flipped
        }
    }
}

fn atan_poly(u: i64) -> (r: i64)
    requires
        -414215 <= u <= 414215,
    ensures
        r as int == spec_atan_poly(u as int),
        -600000 <= r <= 600000,
{
    proof {
        assert(0 <= (u as int) * (u as int) < 171575 * 1000000) by (nonlinear_arith)
            requires
                -414215 <= u as int <= 414215,
        ;
    }
    let u2: i64 = divt_bounded((u as i128) * (u as i128), 1000000, 171574);
    proof {
        assert(-(71069 * 1000000) < (u2 as int) * (u as int) < 71069 * 1000000)
            by (nonlinear_arith)
            requires
                0 <= u2 as int <= 171574,
                -414215 <= u as int <= 414215,
        ;
    }
    let t3: i64 = divt_bounded((u2 as i128) * (u as i128), 1000000, 71068);
    proof {
        assert(-(12194 * 1000000) < (t3 as int) * (u2 as int) < 12194 * 1000000)
            by (nonlinear_arith)
            requires
                -71068 <= t3 as int <= 71068,
                0 <= u2 as int <= 171574,
        ;
    }
    let t5: i64 = divt_bounded((t3 as i128) * (u2 as i128), 1000000, 12193);
    proof {
        assert(-(2093 * 1000000) < (t5 as int) * (u2 as int) < 2093 * 1000000)
            by (nonlinear_arith)
            requires
                -12193 <= t5 as int <= 12193,
                0 <= u2 as int <= 171574,
        ;
    }
    let t7: i64 = divt_bounded((t5 as i128) * (u2 as i128), 1000000, 2092);
    proof {
        assert(-(360 * 1000000) < (t7 as int) * (u2 as int) < 360 * 1000000) by (nonlinear_arith)
            requires
                -2092 <= t7 as int <= 2092,
                0 <= u2 as int <= 171574,
        ;
    }
    let t9: i64 = divt_bounded((t7 as i128) * (u2 as i128), 1000000, 359);
    proof {
        assert(-(63 * 1000000) < (t9 as int) * (u2 as int) < 63 * 1000000) by (nonlinear_arith)
            requires
                -359 <= t9 as int <= 359,
                0 <= u2 as int <= 171574,
        ;
    }
    let t11: i64 = divt_bounded((t9 as i128) * (u2 as i128), 1000000, 62);
    let s3: i64 = divt_bounded(t3 as i128, 3, 71068);
    let s5: i64 = divt_bounded(t5 as i128, 5, 12193);
    let s7: i64 = divt_bounded(t7 as i128, 7, 2092);
    let s9: i64 = divt_bounded(t9 as i128, 9, 359);
    let s11: i64 = divt_bounded(t11 as i128, 11, 62);
    u - s3 + s5 - s7 + s9 - s11
}

fn atan_unit(t: i64) -> (r: i64)
    requires
        0 <= t <= 1000000,
    ensures
        r as int == spec_atan_unit(t as int),
        -600000 <= r <= 1400000,
{
    if t > TAN_EIGHTH {
        proof {
            assert(-(414216 * (t as int + 1000000)) < (t as int - 1000000) * 1000000 && (t as int
                - 1000000) * 1000000 < 414216 * (t as int + 1000000)) by (nonlinear_arith)
                requires
                    414214 < t as int <= 1000000,
            ;
        }
        let u: i64 = divt_bounded(
            ((t as i128) - 1_000_000) * 1_000_000,
            (t as i128) + 1_000_000,
            414215,
        );
        let p: i64 = atan_poly(u);
        QUARTER_PI + p
    } else {
        atan_poly(t)
    }
}

/// Arc tangent of `y / x` placed in the correct quadrant.
pub fn atan2_fx(y: i64, x: i64) -> (r: i64)
    requires
        fx_ok(y as int),
        fx_ok(x as int),
    ensures
        r as int == spec_atan2(y as int, x as int),
        -4000000 <= r <= 4000000,
{
    if x == 0 && y == 0 {
        return 0;
    }
    let ax: i64 = if x < 0 {
        -x
    } else {
        x
    };
    let ay: i64 = if y < 0 {
        -y
    } else {
        y
    };
    let base: i64 = if ax >= ay {
        proof {
            assert(ax >= 1);
            assert(0 <= (ay as int) * 1000000 && (ay as int) * 1000000 < (1000000 + 1) * (
            ax as int)) by (nonlinear_arith)
                requires
                    0 <= ay as int <= ax as int,
                    1 <= ax as int,
            ;
        }
        let t: i64 = divt_bounded((ay as i128) * 1_000_000, ax as i128, 1000000);
        proof {
            assert(0 <= tdiv((ay as int) * 1000000, ax as int));
        }
        atan_unit(t)
    } else {
        proof {
            assert(ay >= 1);
            assert(0 <= (ax as int) * 1000000 && (ax as int) * 1000000 < (1000000 + 1) * (
            ay as int)) by (nonlinear_arith)
                requires
                    0 <= ax as int <= ay as int,
                    1 <= ay as int,
        ;
        }
        let t: i64 = divt_bounded((ax as i128) * 1_000_000, ay as i128, 1000000);
        proof {
            assert(0 <= tdiv((ax as int) * 1000000, ay as int));
        }
        HALF_PI - atan_unit(t)
    };
    let flipped: i64 = if x < 0 {
        PI_FX - base
    } else {
        base
    };
    if y < 0 {
        -flipped
    } else {
        flipped
    }
}

/// Degrees to millionths of a radian, saturating.
pub open spec fn frad(deg: int) -> int {
    crate::fx::fx_sat(tdiv(deg * (PI_FX as int), 180000000))
}

/// Convert a fixed-point angle in degrees to radians.
pub fn deg_to_rad(deg: i64) -> (r: i64)
    ensures
        r as int == frad(deg as int),
        fx_ok(r as int),
{
    proof {
        crate::fx::lemma_mul_bound(deg as int, PI_FX as int);
    }
    let p: i128 = (deg as i128) * (PI_FX as i128);
    let q: i128 = divt128(p, 180_000_000);
    crate::fx::fx_clamp(q)
}

/// Tangent in fixed point, saturating where the cosine vanishes.
pub open spec fn ftan(rad: int) -> int {
    let c = spec_cos(rad);
    if c == 0 {
        if spec_sin(rad) >= 0 {
            crate::fx::FX_MAX as int
        } else {
            -(crate::fx::FX_MAX as int)
        }
    } else {
        crate::fx::fdiv(spec_sin(rad), c)
    }
}

/// Tangent of an angle in millionths of a radian.
pub fn tan_fx(rad: i64) -> (r: i64)
    requires
        fx_ok(rad as int),
    ensures
        r as int == ftan(rad as int),
{
    let s: i64 = sin_fx(rad);
    let c: i64 = cos_fx(rad);
    if c == 0 {
        if s >= 0 {
            crate::fx::FX_MAX
        } else {
            -crate::fx::FX_MAX
        }
    } else {
        crate::fx::fx_div(s, c)
    }
}

} // verus!
