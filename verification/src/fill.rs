//! Bounding-box fill approximation.
//!
//! A filled interior is approximated by the integer grid cells strictly
//! inside the axis-aligned bounding box of the shape's normalized points,
//! enumerated column by column.  The approximation ignores concavity and
//! holes on purpose; every cell it emits lies strictly between the box's
//! bounds on both axes, and no cell outside them is ever emitted.

use vstd::prelude::*;
use crate::fx::{fx_ok, iabs, tdiv, FX_MAX, SCALE};
use crate::model::FxPoint;
use crate::trig::{divt_bounded, lemma_tdiv_range};

verus! {

/// Least x coordinate of a non-empty point sequence.
pub open spec fn min_xs(pts: Seq<FxPoint>) -> int
    decreases pts.len(),
{
    if pts.len() <= 1 {
        if pts.len() == 1 {
            pts[0].x as int
        } else {
            0
        }
    } else {
        let m = min_xs(pts.drop_last());
        if (pts.last().x as int) < m {
            pts.last().x as int
        } else {
            m
        }
    }
}

/// Greatest x coordinate of a non-empty point sequence.
pub open spec fn max_xs(pts: Seq<FxPoint>) -> int
    decreases pts.len(),
{
    if pts.len() <= 1 {
        if pts.len() == 1 {
            pts[0].x as int
        } else {
            0
        }
    } else {
        let m = max_xs(pts.drop_last());
        if (pts.last().x as int) > m {
            pts.last().x as int
        } else {
            m
        }
    }
}

/// Least y coordinate of a non-empty point sequence.
pub open spec fn min_ys(pts: Seq<FxPoint>) -> int
    decreases pts.len(),
{
    if pts.len() <= 1 {
        if pts.len() == 1 {
            pts[0].y as int
        } else {
            0
        }
    } else {
        let m = min_ys(pts.drop_last());
        if (pts.last().y as int) < m {
            pts.last().y as int
        } else {
            m
        }
    }
}

/// Greatest y coordinate of a non-empty point sequence.
pub open spec fn max_ys(pts: Seq<FxPoint>) -> int
    decreases pts.len(),
{
    if pts.len() <= 1 {
        if pts.len() == 1 {
            pts[0].y as int
        } else {
            0
        }
    } else {
        let m = max_ys(pts.drop_last());
        if (pts.last().y as int) > m {
            pts.last().y as int
        } else {
            m
        }
    }
}

/// One column of grid cells at integer x, for integer y in `[y0, y1)`.
pub open spec fn grid_col(x: int, y0: int, y1: int) -> Seq<FxPoint> {
    Seq::new(
        (if y1 >= y0 {
            y1 - y0
        } else {
            0
        }) as nat,
        |j: int|
            FxPoint {
                x: (x * (SCALE as int)) as i64,
                y: ((y0 + j) * (SCALE as int)) as i64,
                connect: true,
            },
    )
}

/// All grid cells with integer x in `[x0, x1)` and y in `[y0, y1)`,
/// column by column.
pub open spec fn grid_cells(x0: int, x1: int, y0: int, y1: int) -> Seq<FxPoint>
    decreases x1 - x0,
{
    if x0 >= x1 {
        Seq::<FxPoint>::empty()
    } else {
        grid_col(x0, y0, y1) + grid_cells(x0 + 1, x1, y0, y1)
    }
}

/// The fill cells of a point set: the integer cells strictly inside its
/// bounding box, under the truncating cell rule.
pub open spec fn spec_fill_points(pts: Seq<FxPoint>) -> Seq<FxPoint> {
    if pts.len() == 0 {
        Seq::<FxPoint>::empty()
    } else {
        let x0 = tdiv(min_xs(pts), SCALE as int) + 1;
        let x1 = tdiv(max_xs(pts), SCALE as int);
        let y0 = tdiv(min_ys(pts), SCALE as int) + 1;
        let y1 = tdiv(max_ys(pts), SCALE as int);
        grid_cells(x0, x1, y0, y1)
    }
}

/// Every enumerated grid cell lies inside its index box: the returned
/// pair is the cell's integer coordinates.
pub proof fn lemma_grid_cells_in_box(x0: int, x1: int, y0: int, y1: int, k: int) -> (w: (
    int,
    int,
))
    requires
        0 <= k < grid_cells(x0, x1, y0, y1).len(),
    ensures
        x0 <= w.0 < x1,
        y0 <= w.1 < y1,
        grid_cells(x0, x1, y0, y1)[k] == (FxPoint {
            x: (w.0 * (SCALE as int)) as i64,
            y: (w.1 * (SCALE as int)) as i64,
            connect: true,
        }),
    decreases x1 - x0,
{
    let col = grid_col(x0, y0, y1);
    if k < col.len() {
        let c = grid_cells(x0, x1, y0, y1)[k];
        assert(c == col[k]);
        (x0, y0 + k)
    } else {
        let w = lemma_grid_cells_in_box(x0 + 1, x1, y0, y1, k - col.len());
        let c = grid_cells(x0 + 1, x1, y0, y1)[k - col.len()];
        assert(grid_cells(x0, x1, y0, y1)[k] == c);
        w
    }
}

/// The least x coordinate is attained by some point.
pub proof fn lemma_min_xs_at(pts: Seq<FxPoint>) -> (i: int)
    requires
        pts.len() > 0,
    ensures
        0 <= i < pts.len(),
        pts[i].x as int == min_xs(pts),
    decreases pts.len(),
{
    if pts.len() == 1 {
        0
    } else {
        let j = lemma_min_xs_at(pts.drop_last());
        if (pts.last().x as int) < min_xs(pts.drop_last()) {
            pts.len() - 1
        } else {
            assert(pts.drop_last()[j] == pts[j]);
            j
        }
    }
}

/// The greatest x coordinate is attained by some point.
pub proof fn lemma_max_xs_at(pts: Seq<FxPoint>) -> (i: int)
    requires
        pts.len() > 0,
    ensures
        0 <= i < pts.len(),
        pts[i].x as int == max_xs(pts),
    decreases pts.len(),
{
    if pts.len() == 1 {
        0
    } else {
        let j = lemma_max_xs_at(pts.drop_last());
        if (pts.last().x as int) > max_xs(pts.drop_last()) {
            pts.len() - 1
        } else {
            assert(pts.drop_last()[j] == pts[j]);
            j
        }
    }
}

/// The least y coordinate is attained by some point.
pub proof fn lemma_min_ys_at(pts: Seq<FxPoint>) -> (i: int)
    requires
        pts.len() > 0,
    ensures
        0 <= i < pts.len(),
        pts[i].y as int == min_ys(pts),
    decreases pts.len(),
{
    if pts.len() == 1 {
        0
    } else {
        let j = lemma_min_ys_at(pts.drop_last());
        if (pts.last().y as int) < min_ys(pts.drop_last()) {
            pts.len() - 1
        } else {
            assert(pts.drop_last()[j] == pts[j]);
            j
        }
    }
}

/// The greatest y coordinate is attained by some point.
pub proof fn lemma_max_ys_at(pts: Seq<FxPoint>) -> (i: int)
    requires
        pts.len() > 0,
    ensures
        0 <= i < pts.len(),
        pts[i].y as int == max_ys(pts),
    decreases pts.len(),
{
    if pts.len() == 1 {
        0
    } else {
        let j = lemma_max_ys_at(pts.drop_last());
        if (pts.last().y as int) > max_ys(pts.drop_last()) {
            pts.len() - 1
        } else {
            assert(pts.drop_last()[j] == pts[j]);
            j
        }
    }
}

/// Fill containment: every emitted fill cell lies strictly between the
/// bounding box's extremes on both axes, so none falls outside the box.
pub proof fn lemma_fill_within_bbox(pts: Seq<FxPoint>, k: int)
    requires
        pts.len() > 0,
        0 <= k < spec_fill_points(pts).len(),
        fx_ok(min_xs(pts)),
        fx_ok(max_xs(pts)),
        fx_ok(min_ys(pts)),
        fx_ok(max_ys(pts)),
    ensures
        min_xs(pts) < spec_fill_points(pts)[k].x < max_xs(pts),
        min_ys(pts) < spec_fill_points(pts)[k].y < max_ys(pts),
{
    let x0 = tdiv(min_xs(pts), SCALE as int) + 1;
    let x1 = tdiv(max_xs(pts), SCALE as int);
    let y0 = tdiv(min_ys(pts), SCALE as int) + 1;
    let y1 = tdiv(max_ys(pts), SCALE as int);
    let (i, j) = lemma_grid_cells_in_box(x0, x1, y0, y1, k);
    lemma_cell_between(min_xs(pts), max_xs(pts), i);
    lemma_cell_between(min_ys(pts), max_ys(pts), j);
}

/// A cell index strictly between the truncated bounds maps back to a
/// coordinate strictly between the bounds themselves.
proof fn lemma_cell_between(lo: int, hi: int, i: int)
    requires
        fx_ok(lo),
        fx_ok(hi),
        tdiv(lo, SCALE as int) + 1 <= i < tdiv(hi, SCALE as int),
    ensures
        lo < i * (SCALE as int) < hi,
        (i * (SCALE as int)) as i64 as int == i * (SCALE as int),
{
    let s = SCALE as int;
    let tl = tdiv(lo, s);
    let th = tdiv(hi, s);
    lemma_trunc_near(lo);
    lemma_trunc_near(hi);
    assert((tl + 1) * s == tl * s + s) by (nonlinear_arith);
    assert(i * s >= (tl + 1) * s) by (nonlinear_arith)
        requires
            i >= tl + 1,
            s >= 1,
    ;
    assert(i * s <= (th - 1) * s) by (nonlinear_arith)
        requires
            i <= th - 1,
            s >= 1,
    ;
    assert((th - 1) * s == th * s - s) by (nonlinear_arith);
    lemma_tdiv_range(lo, s, FX_MAX as int);
    lemma_tdiv_range(hi, s, FX_MAX as int);
    assert(-(FX_MAX as int) <= i * s <= FX_MAX as int) by (nonlinear_arith)
        requires
            tl * s + s <= i * s,
            i * s <= th * s - s,
            -(FX_MAX as int) - s < tl * s,
            th * s < FX_MAX as int + s,
    ;
}

/// Truncating division loses less than one divisor's worth:
/// `v - s < tdiv(v, s) * s < v + s`.
proof fn lemma_trunc_near(v: int)
    ensures
        v - (SCALE as int) < tdiv(v, SCALE as int) * (SCALE as int),
        tdiv(v, SCALE as int) * (SCALE as int) < v + (SCALE as int),
{
    let s = SCALE as int;
    let q = tdiv(v, s);
    let uv = iabs(v);
    vstd::arithmetic::div_mod::lemma_fundamental_div_mod(uv, s);
    let uq = uv / s;
    assert(uv == s * uq + uv % s);
    assert(0 <= uv % s < s) by {
        vstd::arithmetic::div_mod::lemma_mod_bound(uv, s);
    }
    if v >= 0 {
        assert(q == uq);
        assert(q * s == s * uq) by (nonlinear_arith)
            requires
                q == uq,
        ;
    } else {
        assert(q == -uq);
        assert(q * s == -(s * uq)) by (nonlinear_arith)
            requires
                q == -uq,
        ;
    }
}

/// Enumerate the fill cells of a point set.
#[verifier::rlimit(100)]
#[verifier::loop_isolation(false)]
pub fn fill_points(pts: &Vec<FxPoint>) -> (r: Vec<FxPoint>)
    ensures
        r@ == spec_fill_points(pts@),
{
    let n: usize = pts.len();
    if n == 0 {
        let out: Vec<FxPoint> = Vec::new();
        proof {
            assert(out@ =~= spec_fill_points(pts@));
        }
        return out;
    }
    // bounding box
    let mut mnx: i64 = pts[0].x;
    let mut mxx: i64 = pts[0].x;
    let mut mny: i64 = pts[0].y;
    let mut mxy: i64 = pts[0].y;
    let mut k: usize = 1;
    proof {
        assert(pts@.subrange(0, 1) =~= seq![pts@[0]]);
    }
    while k < n
        invariant
            1 <= k <= n,
            mnx as int == min_xs(pts@.subrange(0, k as int)),
            mxx as int == max_xs(pts@.subrange(0, k as int)),
            mny as int == min_ys(pts@.subrange(0, k as int)),
            mxy as int == max_ys(pts@.subrange(0, k as int)),
        decreases n - k,
    {
        proof {
            let pre = pts@.subrange(0, k as int);
            let post = pts@.subrange(0, k + 1);
            assert(post.drop_last() =~= pre);
            assert(post.last() == pts@[k as int]);
        }
        let p: FxPoint = pts[k];
        if p.x < mnx {
            mnx = p.x;
        }
        if p.x > mxx {
            mxx = p.x;
        }
        if p.y < mny {
            mny = p.y;
        }
        if p.y > mxy {
            mxy = p.y;
        }
        k += 1;
    }
    proof {
        assert(pts@.subrange(0, n as int) =~= pts@);
    }
    let x0: i64 = divt_bounded(mnx as i128, SCALE as i128, 9223372036854) + 1;
    let x1: i64 = divt_bounded(mxx as i128, SCALE as i128, 9223372036854);
    let y0: i64 = divt_bounded(mny as i128, SCALE as i128, 9223372036854) + 1;
    let y1: i64 = divt_bounded(mxy as i128, SCALE as i128, 9223372036854);
    let ghost cells = grid_cells(x0 as int, x1 as int, y0 as int, y1 as int);
    let mut out: Vec<FxPoint> = Vec::new();
    let mut x: i64 = x0;
    proof {
        assert(out@ =~= Seq::<FxPoint>::empty());
        lemma_grid_prefix(x0 as int, x0 as int, x1 as int, y0 as int, y1 as int);
    }
    if x1 < x0 {
        proof {
            assert(cells =~= Seq::<FxPoint>::empty());
            assert(out@ =~= spec_fill_points(pts@));
        }
        return out;
    }
    while x < x1
        invariant
            x0 <= x <= if x1 >= x0 {
                x1
            } else {
                x0
            },
            -9223372036853 <= x0 <= 9223372036855,
            -9223372036854 <= x1 <= 9223372036854,
            -9223372036853 <= y0 <= 9223372036855,
            -9223372036854 <= y1 <= 9223372036854,
            cells == out@ + grid_cells(x as int, x1 as int, y0 as int, y1 as int),
        decreases x1 - x,
    {
        let ghost col = grid_col(x as int, y0 as int, y1 as int);
        let mut y: i64 = y0;
        let ghost col_start = out@.len() as int;
        proof {
            assert(out@.subrange(col_start, col_start) =~= col.take(0));
        }
        if y1 >= y0 {
            while y < y1
                invariant
                    y0 <= y <= y1,
                    x0 <= x < x1,
                    -9223372036853 <= x0 <= 9223372036855,
                    -9223372036854 <= x1 <= 9223372036854,
                    -9223372036853 <= y0 <= 9223372036855,
                    -9223372036854 <= y1 <= 9223372036854,
                    col == grid_col(x as int, y0 as int, y1 as int),
                    col_start == out@.len() - (y - y0),
                    0 <= col_start <= out@.len(),
                    out@.subrange(col_start, out@.len() as int) == col.take(y - y0),
                    out@.subrange(0, col_start) + col.take(y - y0) =~= out@,
                    cells == out@.subrange(0, col_start) + grid_cells(
                        x as int,
                        x1 as int,
                        y0 as int,
                        y1 as int,
                    ),
                decreases y1 - y,
            {
                proof {
                    crate::fx::lemma_mul_bound(x as int, SCALE as int);
                    crate::fx::lemma_mul_bound(y as int, SCALE as int);
                    assert(-9223372036854775808 <= (x as int) * (SCALE as int)
                        <= 9223372036854775807) by (nonlinear_arith)
                        requires
                            -9223372036853 <= x as int <= 9223372036853,
                            SCALE == 1000000i64,
                    ;
                    assert(-9223372036854775808 <= (y as int) * (SCALE as int)
                        <= 9223372036854775807) by (nonlinear_arith)
                        requires
                            -9223372036853 <= y as int <= 9223372036853,
                            SCALE == 1000000i64,
                    ;
                }
                let c = FxPoint { x: x * SCALE, y: y * SCALE, connect: true };
                let ghost old_out = out@;
                out.push(c);
                proof {
                    assert(col[y - y0] == c);
                    assert(col.take(y - y0 + 1) =~= col.take(y - y0).push(c));
                    assert(out@.subrange(col_start, out@.len() as int) =~= col.take(y - y0 + 1));
                    assert(out@.subrange(0, col_start) =~= old_out.subrange(0, col_start));
                    assert(out@.subrange(0, col_start) + col.take(y - y0 + 1) =~= out@);
                }
                y += 1;
            }
        }
        proof {
            assert(col.take(if y1 >= y0 {
                y1 - y0
            } else {
                0
            }) =~= col);
            assert(out@ =~= out@.subrange(0, col_start) + col);
            assert(grid_cells(x as int, x1 as int, y0 as int, y1 as int) == col + grid_cells(
                x + 1,
                x1 as int,
                y0 as int,
                y1 as int,
            ));
            assert(out@.subrange(0, col_start) + (col + grid_cells(
                x + 1,
                x1 as int,
                y0 as int,
                y1 as int,
            )) =~= out@ + grid_cells(x + 1, x1 as int, y0 as int, y1 as int));
        }
        x += 1;
    }
    proof {
        assert(grid_cells(x as int, x1 as int, y0 as int, y1 as int) =~= Seq::<FxPoint>::empty());
        assert(out@ + Seq::<FxPoint>::empty() =~= out@);
    }
    out
}

proof fn lemma_grid_prefix(x: int, x0: int, x1: int, y0: int, y1: int)
    requires
        x == x0,
    ensures
        grid_cells(x0, x1, y0, y1) == Seq::<FxPoint>::empty() + grid_cells(x, x1, y0, y1),
{
    assert(Seq::<FxPoint>::empty() + grid_cells(x, x1, y0, y1) =~= grid_cells(x, x1, y0, y1));
}

} // verus!
