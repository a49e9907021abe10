//! SVG elliptical-arc evaluation: the standard endpoint-to-center
//! parameterization, in saturating fixed-point arithmetic.
//!
//! The endpoint delta is rotated into the ellipse's local frame; radii too
//! small for the endpoint separation are scaled up uniformly; the center is
//! picked by the sign rule driven by the two flags; start and sweep angles
//! come from the local-frame endpoints, the sweep's sign and range adjusted
//! to match the sweep flag; samples are taken at uniform angle steps and
//! projected back through the rotation.  A zero radius, or endpoints that
//! coincide in the local frame, leave no ellipse to speak of and are
//! reported as a degenerate arc.

use vstd::prelude::*;
use crate::fx::{
    fadd, fdiv, fmul, fneg, fsub, fx_add, fx_div, fx_half, fx_mul, fx_neg, fx_ok, fx_sub, tdiv,
    FX_MAX, SCALE,
};
use crate::model::PathError;
use crate::trig::{
    atan2_fx, cos_fx, deg_to_rad, divt_bounded, frad, fsqrt, sin_fx, spec_atan2, spec_cos,
    spec_sin, sqrt_fx, TWO_PI,
};

verus! {

/// The center parameterization of one arc: center, corrected radii, the
/// rotation's cosine and sine, and the start and sweep angles.
#[derive(Clone, Copy, Debug, PartialEq, Eq, Structural)]
pub struct ArcGeom {
    pub cx: i64,
    pub cy: i64,
    pub rx: i64,
    pub ry: i64,
    pub cosr: i64,
    pub sinr: i64,
    pub start: i64,
    pub delta: i64,
}

/// Endpoint-to-center conversion, mirrored exactly by `arc_geometry`.
pub open spec fn spec_arc_geometry(
    x1: int,
    y1: int,
    rx0: int,
    ry0: int,
    rot: int,
    laf: bool,
    sf: bool,
    x2: int,
    y2: int,
) -> Result<ArcGeom, PathError> {
    if rx0 == 0 || ry0 == 0 {
        Err(PathError::DegenerateArc)
    } else {
        let rad = frad(rot);
        let cosr = spec_cos(rad);
        let sinr = spec_sin(rad);
        let hdx = tdiv(fsub(x1, x2), 2);
        let hdy = tdiv(fsub(y1, y2), 2);
        let x1p = fadd(fmul(cosr, hdx), fmul(sinr, hdy));
        let y1p = fadd(fneg(fmul(sinr, hdx)), fmul(cosr, hdy));
        let qx = fdiv(x1p, rx0);
        let qy = fdiv(y1p, ry0);
        let lambda = fadd(fmul(qx, qx), fmul(qy, qy));
        let rx = if lambda > SCALE as int {
            fmul(rx0, fsqrt(lambda))
        } else {
            rx0
        };
        let ry = if lambda > SCALE as int {
            fmul(ry0, fsqrt(lambda))
        } else {
            ry0
        };
        if rx == 0 || ry == 0 {
            Err(PathError::DegenerateArc)
        } else {
            let qx2 = fdiv(x1p, rx);
            let qy2 = fdiv(y1p, ry);
            let lam2 = fadd(fmul(qx2, qx2), fmul(qy2, qy2));
            if lam2 == 0 {
                Err(PathError::DegenerateArc)
            } else {
                let num = fsub(SCALE as int, lam2);
                let num2 = if num < 0 {
                    0
                } else {
                    num
                };
                let factor = fsqrt(fdiv(num2, lam2));
                let cxp0 = fmul(fmul(factor, rx), qy2);
                let cyp0 = fmul(fmul(factor, ry), qx2);
                let cxp = if laf == sf {
                    fneg(cxp0)
                } else {
                    cxp0
                };
                let cyp = if laf == sf {
                    cyp0
                } else {
                    fneg(cyp0)
                };
                let mx = tdiv(fadd(x1, x2), 2);
                let my = tdiv(fadd(y1, y2), 2);
                let cx = fadd(fsub(fmul(cosr, cxp), fmul(sinr, cyp)), mx);
                let cy = fadd(fadd(fmul(sinr, cxp), fmul(cosr, cyp)), my);
                let ux = fdiv(fsub(x1p, cxp), rx);
                let uy = fdiv(fsub(y1p, cyp), ry);
                let start = spec_atan2(uy, ux);
                let vx = fdiv(fsub(fneg(x1p), cxp), rx);
                let vy = fdiv(fsub(fneg(y1p), cyp), ry);
                let d0 = fsub(spec_atan2(vy, vx), start);
                let d1 = if (sf && d0 < 0) || (!sf && d0 > 0) {
                    fadd(d0, TWO_PI as int)
                } else {
                    d0
                };
                let delta = if sf {
                    d1
                } else {
                    fneg(d1)
                };
                Ok(
                    ArcGeom {
                        cx: cx as i64,
                        cy: cy as i64,
                        rx: rx as i64,
                        ry: ry as i64,
                        cosr: cosr as i64,
                        sinr: sinr as i64,
                        start: start as i64,
                        delta: delta as i64,
                    },
                )
            }
        }
    }
}

/// One sampled arc point at parameter `i / n`, before projection into the
/// interpreter's emit step.
pub open spec fn spec_arc_sample(g: ArcGeom, i: int, n: int) -> (int, int) {
    let angle = fadd(g.start as int, tdiv(g.delta as int * i, n));
    let x = fadd(g.cx as int, fmul(g.rx as int, spec_cos(angle)));
    let y = fadd(g.cy as int, fmul(g.ry as int, spec_sin(angle)));
    let dx = fsub(x, g.cx as int);
    let dy = fsub(y, g.cy as int);
    let xr = fadd(fsub(fmul(g.cosr as int, dx), fmul(g.sinr as int, dy)), g.cx as int);
    let yr = fadd(fadd(fmul(g.sinr as int, dx), fmul(g.cosr as int, dy)), g.cy as int);
    (xr, yr)
}

/// The `n + 1` sampled points of one arc command, or why there are none.
pub open spec fn spec_arc_points(
    x1: int,
    y1: int,
    rx0: int,
    ry0: int,
    rot: int,
    laf: bool,
    sf: bool,
    x2: int,
    y2: int,
    n: int,
) -> Result<Seq<(int, int)>, PathError> {
    match spec_arc_geometry(x1, y1, rx0, ry0, rot, laf, sf, x2, y2) {
        Err(e) => Err(e),
        Ok(g) => Ok(Seq::new((n + 1) as nat, |i: int| spec_arc_sample(g, i, n))),
    }
}

/// Endpoint-to-center conversion.
pub fn arc_geometry(
    x1: i64,
    y1: i64,
    rx0: i64,
    ry0: i64,
    rot: i64,
    laf: bool,
    sf: bool,
    x2: i64,
    y2: i64,
) -> (r: Result<ArcGeom, PathError>)
    requires
        fx_ok(x1 as int),
        fx_ok(y1 as int),
        fx_ok(x2 as int),
        fx_ok(y2 as int),
        fx_ok(rx0 as int),
        fx_ok(ry0 as int),
    ensures
        r == spec_arc_geometry(
            x1 as int,
            y1 as int,
            rx0 as int,
            ry0 as int,
            rot as int,
            laf,
            sf,
            x2 as int,
            y2 as int,
        ),
        r matches Ok(g) ==> fx_ok(g.cx as int) && fx_ok(g.cy as int) && fx_ok(g.rx as int)
            && fx_ok(g.ry as int) && fx_ok(g.cosr as int) && fx_ok(g.sinr as int) && fx_ok(
            g.start as int,
        ) && fx_ok(g.delta as int),
{
    if rx0 == 0 || ry0 == 0 {
        return Err(PathError::DegenerateArc);
    }
    let rad: i64 = deg_to_rad(rot);
    let cosr: i64 = cos_fx(rad);
    let sinr: i64 = sin_fx(rad);
    let hdx: i64 = fx_half(fx_sub(x1, x2));
    let hdy: i64 = fx_half(fx_sub(y1, y2));
    proof {
        crate::trig::lemma_tdiv_range(fsub(x1 as int, x2 as int), 2, FX_MAX as int);
    }
    let x1p: i64 = fx_add(fx_mul(cosr, hdx), fx_mul(sinr, hdy));
    let y1p: i64 = fx_add(fx_neg(fx_mul(sinr, hdx)), fx_mul(cosr, hdy));
    let qx: i64 = fx_div(x1p, rx0);
    let qy: i64 = fx_div(y1p, ry0);
    let lambda: i64 = fx_add(fx_mul(qx, qx), fx_mul(qy, qy));
    let rx: i64 = if lambda > SCALE {
        fx_mul(rx0, sqrt_fx(lambda))
    } else {
        rx0
    };
    let ry: i64 = if lambda > SCALE {
        fx_mul(ry0, sqrt_fx(lambda))
    } else {
        ry0
    };
    if rx == 0 || ry == 0 {
        return Err(PathError::DegenerateArc);
    }
    let qx2: i64 = fx_div(x1p, rx);
    let qy2: i64 = fx_div(y1p, ry);
    let lam2: i64 = fx_add(fx_mul(qx2, qx2), fx_mul(qy2, qy2));
    if lam2 == 0 {
        return Err(PathError::DegenerateArc);
    }
    let num: i64 = fx_sub(SCALE, lam2);
    let num2: i64 = if num < 0 {
        0
    } else {
        num
    };
    let factor: i64 = sqrt_fx(fx_div(num2, lam2));
    let cxp0: i64 = fx_mul(fx_mul(factor, rx), qy2);
    let cyp0: i64 = fx_mul(fx_mul(factor, ry), qx2);
    let cxp: i64 = if laf == sf {
        fx_neg(cxp0)
    } else {
        cxp0
    };
    let cyp: i64 = if laf == sf {
        cyp0
    } else {
        fx_neg(cyp0)
    };
    let mx: i64 = fx_half(fx_add(x1, x2));
    let my: i64 = fx_half(fx_add(y1, y2));
    proof {
        crate::trig::lemma_tdiv_range(fadd(x1 as int, x2 as int), 2, FX_MAX as int);
        crate::trig::lemma_tdiv_range(fadd(y1 as int, y2 as int), 2, FX_MAX as int);
        crate::trig::lemma_tdiv_range(fsub(y1 as int, y2 as int), 2, FX_MAX as int);
    }
    let cx: i64 = fx_add(fx_sub(fx_mul(cosr, cxp), fx_mul(sinr, cyp)), mx);
    let cy: i64 = fx_add(fx_add(fx_mul(sinr, cxp), fx_mul(cosr, cyp)), my);
    let ux: i64 = fx_div(fx_sub(x1p, cxp), rx);
    let uy: i64 = fx_div(fx_sub(y1p, cyp), ry);
    let start: i64 = atan2_fx(uy, ux);
    let vx: i64 = fx_div(fx_sub(fx_neg(x1p), cxp), rx);
    let vy: i64 = fx_div(fx_sub(fx_neg(y1p), cyp), ry);
    let d0: i64 = fx_sub(atan2_fx(vy, vx), start);
    let d1: i64 = if (sf && d0 < 0) || (!sf && d0 > 0) {
        fx_add(d0, TWO_PI)
    } else {
        d0
    };
    let delta: i64 = if sf {
        d1
    } else {
        fx_neg(d1)
    };
    Ok(ArcGeom { cx, cy, rx, ry, cosr, sinr, start, delta })
}

/// Sample an arc at `n + 1` uniform angle steps.
pub fn elliptical_arc(
    x1: i64,
    y1: i64,
    rx0: i64,
    ry0: i64,
    rot: i64,
    laf: bool,
    sf: bool,
    x2: i64,
    y2: i64,
    n: usize,
) -> (r: Result<Vec<(i64, i64)>, PathError>)
    requires
        fx_ok(x1 as int),
        fx_ok(y1 as int),
        fx_ok(x2 as int),
        fx_ok(y2 as int),
        fx_ok(rx0 as int),
        fx_ok(ry0 as int),
        1 <= n <= 100000,
    ensures
        match r {
            Ok(pts) => {
                &&& spec_arc_points(
                    x1 as int,
                    y1 as int,
                    rx0 as int,
                    ry0 as int,
                    rot as int,
                    laf,
                    sf,
                    x2 as int,
                    y2 as int,
                    n as int,
                ) matches Ok(sp) && pts@.map_values(|p: (i64, i64)| (p.0 as int, p.1 as int))
                    == sp
                &&& pts@.len() == n + 1
            },
            Err(e) => spec_arc_points(
                x1 as int,
                y1 as int,
                rx0 as int,
                ry0 as int,
                rot as int,
                laf,
                sf,
                x2 as int,
                y2 as int,
                n as int,
            ) == Err::<Seq<(int, int)>, PathError>(e),
        },
{
    let geom = arc_geometry(x1, y1, rx0, ry0, rot, laf, sf, x2, y2);
    let g: ArcGeom = match geom {
        Err(e) => {
            return Err(e);
        },
        Ok(g) => g,
    };
    let ghost sp: Seq<(int, int)> = Seq::new((n + 1) as nat, |i: int| spec_arc_sample(g, i, n as int));
    let mut out: Vec<(i64, i64)> = Vec::new();
    let mut i: usize = 0;
    proof {
        assert(out@.map_values(|p: (i64, i64)| (p.0 as int, p.1 as int)) =~= sp.take(0));
    }
    while i <= n
        invariant
            0 <= i <= n + 1,
            1 <= n <= 100000,
            fx_ok(g.delta as int),
            fx_ok(g.start as int),
            sp == Seq::new((n + 1) as nat, |k: int| spec_arc_sample(g, k, n as int)),
            out@.map_values(|p: (i64, i64)| (p.0 as int, p.1 as int)) == sp.take(i as int),
            out@.len() == i,
        decreases n + 1 - i,
    {
        proof {
            assert(-((FX_MAX as int + 1) * (n as int)) < (g.delta as int) * (i as int) && (
            g.delta as int) * (i as int) < (FX_MAX as int + 1) * (n as int)) by (nonlinear_arith)
                requires
                    -(FX_MAX as int) <= g.delta as int <= FX_MAX as int,
                    0 <= i as int <= n as int,
                    1 <= n as int,
                    FX_MAX == 4000000000000000000i64,
            ;
        }
        let frac: i64 = divt_bounded(
            (g.delta as i128) * (i as i128),
            n as i128,
            FX_MAX,
        );
        let angle: i64 = fx_add(g.start, frac);
        let x: i64 = fx_add(g.cx, fx_mul(g.rx, cos_fx(angle)));
        let y: i64 = fx_add(g.cy, fx_mul(g.ry, sin_fx(angle)));
        let dx: i64 = fx_sub(x, g.cx);
        let dy: i64 = fx_sub(y, g.cy);
        let xr: i64 = fx_add(fx_sub(fx_mul(g.cosr, dx), fx_mul(g.sinr, dy)), g.cx);
        let yr: i64 = fx_add(fx_add(fx_mul(g.sinr, dx), fx_mul(g.cosr, dy)), g.cy);
        let ghost old_map = out@.map_values(|p: (i64, i64)| (p.0 as int, p.1 as int));
        out.push((xr, yr));
        proof {
            assert(sp[i as int] == spec_arc_sample(g, i as int, n as int));
            assert((xr as int, yr as int) == spec_arc_sample(g, i as int, n as int));
            assert(out@.map_values(|p: (i64, i64)| (p.0 as int, p.1 as int)) =~= old_map.push(
                (xr as int, yr as int),
            ));
            assert(sp.take(i + 1) =~= sp.take(i as int).push(sp[i as int]));
        }
        i += 1;
    }
    proof {
        assert(sp.take(n + 1) =~= sp);
    }
    Ok(out)
}

} // verus!
