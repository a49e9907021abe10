//! The path tokenizer and the command state machine.
//!
//! A path `d` string is split on single spaces; every token that starts
//! with a letter opens a command group and the following numeric tokens are
//! its arguments.  The interpreter walks the groups carrying the current
//! point, the first subpath start and the previous curve's control point,
//! and emits normalized, transformed points into the 0-100 box with the
//! vertical axis flipped.  Curves are sampled at one hundred fixed steps,
//! arcs at one hundred and one.

use vstd::prelude::*;
use crate::bezier::{cubic_bezier_curve, cubic_point, quad_point, quadratic_bezier_curve};
use crate::fill::{fill_points, spec_fill_points};
use crate::fx::{fadd, fnorm, fsub, fx_add, fx_ok, fx_sub, norm_coord, HUNDRED};
use crate::model::{CommandGroup, FxPoint, PathError, Transform};
use crate::scan::{split_ch, split_str};
use crate::style::{fill_match, style_has_fill};
use crate::transform::{parse_args_s, parse_transform, spec_apply_transform, spec_parse_transform,
    apply_transform};
use crate::arc::{elliptical_arc, spec_arc_points};

verus! {

/// An ASCII letter, upper or lower case.
pub open spec fn is_alpha(c: char) -> bool {
    (65 <= c as u32 && c as u32 <= 90) || (97 <= c as u32 && c as u32 <= 122)
}

/// Does this token open a command group?
pub open spec fn alpha_start(t: Seq<char>) -> bool {
    t.len() > 0 && is_alpha(t[0])
}

/// Index of the next command token at or after `from`, or the end.
pub open spec fn args_end(toks: Seq<Seq<char>>, from: int) -> int
    decreases toks.len() - from,
{
    if from < 0 || from >= toks.len() {
        toks.len() as int
    } else if alpha_start(toks[from]) {
        from
    } else {
        args_end(toks, from + 1)
    }
}

pub proof fn lemma_args_end(toks: Seq<Seq<char>>, from: int)
    requires
        0 <= from <= toks.len(),
    ensures
        from <= args_end(toks, from) <= toks.len(),
        args_end(toks, from) < toks.len() ==> alpha_start(toks[args_end(toks, from)]),
        forall|j: int| from <= j < args_end(toks, from) ==> !alpha_start(toks[j]),
    decreases toks.len() - from,
{
    if from < toks.len() && !alpha_start(toks[from]) {
        lemma_args_end(toks, from + 1);
    }
}

/// The command groups from `from` on: each command token paired with the
/// values of its argument tokens.
pub open spec fn spec_groups(toks: Seq<Seq<char>>, from: int) -> Result<
    Seq<(Seq<char>, Seq<int>)>,
    PathError,
>
    decreases toks.len() - from,
{
    if from < 0 || from >= toks.len() {
        Ok(Seq::<(Seq<char>, Seq<int>)>::empty())
    } else {
        let e = args_end(toks, from + 1);
        if from + 1 <= e <= toks.len() {
            match parse_args_s(toks.subrange(from + 1, e)) {
                None => Err(PathError::BadNumber),
                Some(vals) => match spec_groups(toks, e) {
                    Err(er) => Err(er),
                    Ok(rest) => Ok(seq![(toks[from], vals)] + rest),
                },
            }
        } else {
            Err(PathError::BadNumber)
        }
    }
}

/// What a whole `d` string tokenizes to.
pub open spec fn spec_tokenize(d: Seq<char>) -> Result<Seq<(Seq<char>, Seq<int>)>, PathError> {
    let toks = split_ch(d, ' ');
    if exists|i: int| 0 <= i < toks.len() && #[trigger] toks[i].len() == 0 {
        Err(PathError::EmptyToken)
    } else if !alpha_start(toks[0]) {
        Err(PathError::MissingCommand)
    } else {
        spec_groups(toks, 0)
    }
}

/// The view of a vector of command groups.
pub open spec fn groups_view(gs: Seq<CommandGroup>) -> Seq<(Seq<char>, Seq<int>)> {
    gs.map_values(|g: CommandGroup| (g.cmd@, g.args@.map_values(|a: i64| a as int)))
}

/// Every argument value in a group list is in the saturation range.
pub open spec fn groups_args_ok(gs: Seq<(Seq<char>, Seq<int>)>) -> bool {
    forall|k: int, j: int|
        0 <= k < gs.len() && 0 <= j < gs[k].1.len() ==> fx_ok(#[trigger] gs[k].1[j])
}

/// Split a path `d` string into command groups.
#[verifier::rlimit(60)]
#[verifier::loop_isolation(false)]
pub fn tokenize_path(d: &str) -> (r: Result<Vec<CommandGroup>, PathError>)
    ensures
        match r {
            Ok(gs) => spec_tokenize(d@) == Ok::<_, PathError>(groups_view(gs@)) && groups_args_ok(
                groups_view(gs@),
            ),
            Err(e) => spec_tokenize(d@) == Err::<Seq<(Seq<char>, Seq<int>)>, _>(e),
        },
{
    let toks: Vec<String> = split_str(d, ' ');
    let ghost dv: Seq<Seq<char>> = toks.deep_view();
    let n: usize = toks.len();
    proof {
        assert(dv.len() == n);
    }
    // any empty token refuses the whole string
    let mut i: usize = 0;
    while i < n
        invariant
            0 <= i <= n,
            forall|j: int| 0 <= j < i ==> #[trigger] dv[j].len() != 0,
        decreases n - i,
    {
        if toks[i].as_str().unicode_len() == 0 {
            proof {
                assert(dv[i as int].len() == 0);
            }
            return Err(PathError::EmptyToken);
        }
        i += 1;
    }
    // leading tokens that belong to no command refuse it too
    let first_is_cmd: bool = {
        let t0: &String = &toks[0];
        let c0: char = t0.as_str().get_char(0);
        let u: u32 = c0 as u32;
        (65 <= u && u <= 90) || (97 <= u && u <= 122)
    };
    if !first_is_cmd {
        proof {
            assert(!alpha_start(dv[0]));
        }
        return Err(PathError::MissingCommand);
    }
    let mut out: Vec<CommandGroup> = Vec::new();
    let mut from: usize = 0;
    proof {
        assert(groups_view(out@) =~= Seq::<(Seq<char>, Seq<int>)>::empty());
    }
    while from < n
        invariant
            0 <= from <= n,
            groups_args_ok(groups_view(out@)),
            forall|e2: PathError|
                spec_groups(dv, from as int) == Err::<Seq<(Seq<char>, Seq<int>)>, _>(e2)
                    ==> spec_groups(dv, 0) == Err::<Seq<(Seq<char>, Seq<int>)>, _>(e2),
            forall|rest: Seq<(Seq<char>, Seq<int>)>|
                spec_groups(dv, from as int) == Ok::<_, PathError>(rest) ==> spec_groups(dv, 0)
                    == Ok::<_, PathError>(groups_view(out@) + rest),
        decreases n - from,
    {
        let e: usize = group_end(&toks, from + 1);
        proof {
            lemma_args_end(dv, from + 1);
        }
        let vals: Option<Vec<i64>> = parse_args_range(&toks, from + 1, e);
        match vals {
            None => {
                return Err(PathError::BadNumber);
            },
            Some(args) => {
                let cmd: String = toks[from].clone();
                let g = CommandGroup { cmd, args };
                let ghost old_gv = groups_view(out@);
                let ghost vals_map = g.args@.map_values(|a: i64| a as int);
                out.push(g);
                proof {
                    assert(groups_view(out@) =~= old_gv.push((dv[from as int], vals_map)));
                    assert forall|rest: Seq<(Seq<char>, Seq<int>)>|
                        spec_groups(dv, e as int) == Ok::<_, PathError>(rest) implies spec_groups(
                        dv,
                        0,
                    ) == Ok::<_, PathError>(groups_view(out@) + rest) by {
                        assert(spec_groups(dv, from as int) == Ok::<_, PathError>(
                            seq![(dv[from as int], vals_map)] + rest,
                        ));
                        assert(old_gv + (seq![(dv[from as int], vals_map)] + rest) =~= groups_view(
                            out@,
                        ) + rest);
                    }
                }
                from = e;
            },
        }
    }
    proof {
        assert(spec_groups(dv, n as int) == Ok::<_, PathError>(
            Seq::<(Seq<char>, Seq<int>)>::empty(),
        ));
        assert(groups_view(out@) + Seq::<(Seq<char>, Seq<int>)>::empty() =~= groups_view(out@));
    }
    Ok(out)
}

/// Index of the next command token at or after `from`.
fn group_end(toks: &Vec<String>, from: usize) -> (e: usize)
    requires
        from as int <= toks.deep_view().len(),
        forall|j: int| 0 <= j < toks.deep_view().len() ==> #[trigger] toks.deep_view()[j].len()
            != 0,
    ensures
        e as int == args_end(toks.deep_view(), from as int),
        from <= e <= toks.len(),
    decreases toks.len() - from,
{
    let n: usize = toks.len();
    if from >= n {
        return n;
    }
    let t: &String = &toks[from];
    proof {
        assert(toks.deep_view()[from as int] == t@);
        assert(t@.len() != 0);
    }
    let c: char = t.as_str().get_char(0);
    let u: u32 = c as u32;
    if (65 <= u && u <= 90) || (97 <= u && u <= 122) {
        proof {
            assert(alpha_start(toks.deep_view()[from as int]));
        }
        from
    } else {
        proof {
            assert(!alpha_start(toks.deep_view()[from as int]));
        }
        group_end(toks, from + 1)
    }
}

/// Parse the tokens of one argument span.
fn parse_args_range(toks: &Vec<String>, from: usize, to: usize) -> (r: Option<Vec<i64>>)
    requires
        0 <= from <= to <= toks.len(),
    ensures
        match r {
            Some(v) => parse_args_s(toks.deep_view().subrange(from as int, to as int)) == Some(
                v@.map_values(|a: i64| a as int),
            ) && (forall|j: int| 0 <= j < v@.len() ==> fx_ok(#[trigger] v@[j] as int)),
            None => parse_args_s(toks.deep_view().subrange(from as int, to as int)) is None,
        },
{
    let ghost span = toks.deep_view().subrange(from as int, to as int);
    let mut out: Vec<i64> = Vec::new();
    let mut i: usize = from;
    proof {
        assert(span.subrange(0, 0) =~= Seq::<Seq<char>>::empty());
        assert(out@.map_values(|a: i64| a as int) =~= Seq::<int>::empty());
    }
    while i < to
        invariant
            from <= i <= to <= toks.len(),
            span == toks.deep_view().subrange(from as int, to as int),
            parse_args_s(span.subrange(0, i - from)) == Some(out@.map_values(|a: i64| a as int)),
            forall|j: int| 0 <= j < out@.len() ==> fx_ok(#[trigger] out@[j] as int),
        decreases to - i,
    {
        let tok: &String = &toks[i];
        proof {
            assert(span[i - from] == toks.deep_view()[i as int]);
            assert(toks.deep_view()[i as int] == tok@);
        }
        match crate::num::parse_fixed(tok.as_str()) {
            None => {
                proof {
                    crate::transform::lemma_parse_args_prefix_none(span, i - from);
                }
                return None;
            },
            Some(v) => {
                let ghost old_map = out@.map_values(|a: i64| a as int);
                out.push(v);
                proof {
                    let pre = span.subrange(0, i - from);
                    let post = span.subrange(0, i - from + 1);
                    assert(post.drop_last() =~= pre);
                    assert(post.last() == span[i - from]);
                    assert(out@.map_values(|a: i64| a as int) =~= old_map.push(v as int));
                }
            },
        }
        i += 1;
    }
    proof {
        assert(span.subrange(0, to - from) =~= span);
    }
    Some(out)
}

/// The interpreter's running state: current point, the first subpath start
/// once set, and the control point of the last curve command for the
/// smooth reflections.
#[derive(Clone, Copy, Debug, PartialEq, Eq, Structural)]
pub struct PathState {
    pub cur_x: i64,
    pub cur_y: i64,
    pub start_set: bool,
    pub start_x: i64,
    pub start_y: i64,
    pub prev: PrevCtrl,
}

/// The control point carried from the previous command, where reflection
/// applies: the second control of a cubic, the control of a quadratic.
#[derive(Clone, Copy, Debug, PartialEq, Eq, Structural)]
pub enum PrevCtrl {
    NoCurve,
    Cubic(i64, i64),
    Quad(i64, i64),
}

/// The coordinates a state can hold while the machine runs: every one of
/// them came out of the saturating arithmetic.
pub open spec fn state_ok(st: PathState) -> bool {
    fx_ok(st.cur_x as int) && fx_ok(st.cur_y as int)
}

/// The interpreter's initial state, at the origin with nothing started.
pub open spec fn init_state() -> PathState {
    PathState {
        cur_x: 0,
        cur_y: 0,
        start_set: false,
        start_x: 0,
        start_y: 0,
        prev: PrevCtrl::NoCurve,
    }
}

/// Emit one point: transform it, then flip the vertical axis into the
/// bottom-left-oriented box.
pub open spec fn spec_emit(t: Transform, x: int, y: int, w: int, h: int, connect: bool) -> FxPoint {
    let p = spec_apply_transform(t, x, y, w, h);
    FxPoint { x: p.0 as i64, y: fsub(HUNDRED as int, p.1) as i64, connect }
}

/// One command's effect on the state and the points it emits.
#[verifier::opaque]
pub open spec fn spec_step(
    st: PathState,
    cmd: Seq<char>,
    args: Seq<int>,
    t: Transform,
    w: int,
    h: int,
) -> Result<(PathState, Seq<FxPoint>), PathError> {
    if cmd.len() != 1 {
        Ok((st, Seq::<FxPoint>::empty()))
    } else if cmd[0] == 'M' {
        if args.len() < 2 {
            Err(PathError::MissingArgs)
        } else {
            let x = fnorm(args[0], w) as i64;
            let y = fnorm(args[1], h) as i64;
            if !st.start_set {
                Ok(
                    (
                        PathState {
                            cur_x: x,
                            cur_y: y,
                            start_set: true,
                            start_x: x,
                            start_y: y,
                            prev: PrevCtrl::NoCurve,
                        },
                        seq![spec_emit(t, x as int, y as int, w, h, true)],
                    ),
                )
            } else {
                Ok(
                    (
                        PathState { cur_x: x, cur_y: y, prev: PrevCtrl::NoCurve, ..st },
                        seq![spec_emit(t, x as int, y as int, w, h, false)],
                    ),
                )
            }
        }
    } else if cmd[0] == 'L' {
        if args.len() < 2 {
            Err(PathError::MissingArgs)
        } else {
            let x = fnorm(args[0], w) as i64;
            let y = fnorm(args[1], h) as i64;
            Ok(
                (
                    PathState { cur_x: x, cur_y: y, prev: PrevCtrl::NoCurve, ..st },
                    seq![spec_emit(t, x as int, y as int, w, h, true)],
                ),
            )
        }
    } else if cmd[0] == 'H' {
        if args.len() < 1 {
            Err(PathError::MissingArgs)
        } else {
            let x = fnorm(args[0], w) as i64;
            Ok(
                (
                    PathState { cur_x: x, prev: PrevCtrl::NoCurve, ..st },
                    seq![spec_emit(t, x as int, st.cur_y as int, w, h, true)],
                ),
            )
        }
    } else if cmd[0] == 'V' {
        if args.len() < 1 {
            Err(PathError::MissingArgs)
        } else {
            let y = fnorm(args[0], h) as i64;
            Ok(
                (
                    PathState { cur_y: y, prev: PrevCtrl::NoCurve, ..st },
                    seq![spec_emit(t, st.cur_x as int, y as int, w, h, true)],
                ),
            )
        }
    } else if cmd[0] == 'C' {
        if args.len() < 6 {
            Err(PathError::MissingArgs)
        } else {
            let c1 = (fnorm(args[0], w), fnorm(args[1], h));
            let c2 = (fnorm(args[2], w), fnorm(args[3], h));
            let e = (fnorm(args[4], w), fnorm(args[5], h));
            let pts = Seq::new(
                100,
                |i: int|
                    {
                        let p = cubic_point(
                            (st.cur_x as int, st.cur_y as int),
                            c1,
                            c2,
                            e,
                            i,
                        );
                        spec_emit(t, p.0, p.1, w, h, true)
                    },
            );
            Ok(
                (
                    PathState {
                        cur_x: e.0 as i64,
                        cur_y: e.1 as i64,
                        prev: PrevCtrl::Cubic(c2.0 as i64, c2.1 as i64),
                        ..st
                    },
                    pts,
                ),
            )
        }
    } else if cmd[0] == 'S' {
        if args.len() < 4 {
            Err(PathError::MissingArgs)
        } else {
            let c1 = match st.prev {
                PrevCtrl::Cubic(px, py) => (
                    fadd(st.cur_x as int, fsub(st.cur_x as int, px as int)),
                    fadd(st.cur_y as int, fsub(st.cur_y as int, py as int)),
                ),
                _ => (st.cur_x as int, st.cur_y as int),
            };
            let c2 = (fnorm(args[0], w), fnorm(args[1], h));
            let e = (fnorm(args[2], w), fnorm(args[3], h));
            let pts = Seq::new(
                100,
                |i: int|
                    {
                        let p = cubic_point(
                            (st.cur_x as int, st.cur_y as int),
                            c1,
                            c2,
                            e,
                            i,
                        );
                        spec_emit(t, p.0, p.1, w, h, true)
                    },
            );
            Ok(
                (
                    PathState {
                        cur_x: e.0 as i64,
                        cur_y: e.1 as i64,
                        prev: PrevCtrl::Cubic(c2.0 as i64, c2.1 as i64),
                        ..st
                    },
                    pts,
                ),
            )
        }
    } else if cmd[0] == 'Q' {
        if args.len() < 4 {
            Err(PathError::MissingArgs)
        } else {
            let c = (fnorm(args[0], w), fnorm(args[1], h));
            let e = (fnorm(args[2], w), fnorm(args[3], h));
            let pts = Seq::new(
                100,
                |i: int|
                    {
                        let p = quad_point((st.cur_x as int, st.cur_y as int), c, e, i);
                        spec_emit(t, p.0, p.1, w, h, true)
                    },
            );
            Ok(
                (
                    PathState {
                        cur_x: e.0 as i64,
                        cur_y: e.1 as i64,
                        prev: PrevCtrl::Quad(c.0 as i64, c.1 as i64),
                        ..st
                    },
                    pts,
                ),
            )
        }
    } else if cmd[0] == 'T' {
        if args.len() < 2 {
            Err(PathError::MissingArgs)
        } else {
            let c = match st.prev {
                PrevCtrl::Quad(px, py) => (
                    fadd(st.cur_x as int, fsub(st.cur_x as int, px as int)),
                    fadd(st.cur_y as int, fsub(st.cur_y as int, py as int)),
                ),
                _ => (st.cur_x as int, st.cur_y as int),
            };
            let e = (fnorm(args[0], w), fnorm(args[1], h));
            let pts = Seq::new(
                100,
                |i: int|
                    {
                        let p = quad_point((st.cur_x as int, st.cur_y as int), c, e, i);
                        spec_emit(t, p.0, p.1, w, h, true)
                    },
            );
            Ok(
                (
                    PathState {
                        cur_x: e.0 as i64,
                        cur_y: e.1 as i64,
                        prev: PrevCtrl::Quad(c.0 as i64, c.1 as i64),
                        ..st
                    },
                    pts,
                ),
            )
        }
    } else if cmd[0] == 'A' {
        if args.len() < 7 {
            Err(PathError::MissingArgs)
        } else {
            let rx = fnorm(args[0], w);
            let ry = fnorm(args[1], h);
            let laf = args[3] == 1000000;
            let sf = args[4] == 1000000;
            let e = (fnorm(args[5], w), fnorm(args[6], h));
            match spec_arc_points(
                st.cur_x as int,
                st.cur_y as int,
                rx,
                ry,
                args[2],
                laf,
                sf,
                e.0,
                e.1,
                100,
            ) {
                Err(er) => Err(er),
                Ok(sp) => {
                    let pts = Seq::new(
                        sp.len(),
                        |i: int| spec_emit(t, sp[i].0, sp[i].1, w, h, true),
                    );
                    Ok(
                        (
                            PathState {
                                cur_x: e.0 as i64,
                                cur_y: e.1 as i64,
                                prev: PrevCtrl::NoCurve,
                                ..st
                            },
                            pts,
                        ),
                    )
                },
            }
        }
    } else if cmd[0] == 'Z' {
        if !st.start_set {
            Err(PathError::NoSubpathStart)
        } else {
            Ok((st, seq![spec_emit(t, st.start_x as int, st.start_y as int, w, h, true)]))
        }
    } else {
        Ok((st, Seq::<FxPoint>::empty()))
    }
}

/// Run the state machine over the remaining groups, accumulating points.
pub open spec fn spec_run(
    groups: Seq<(Seq<char>, Seq<int>)>,
    k: int,
    st: PathState,
    acc: Seq<FxPoint>,
    t: Transform,
    w: int,
    h: int,
) -> Result<Seq<FxPoint>, PathError>
    decreases groups.len() - k,
{
    if k < 0 || k >= groups.len() {
        Ok(acc)
    } else {
        match spec_step(st, groups[k].0, groups[k].1, t, w, h) {
            Err(e) => Err(e),
            Ok(next) => spec_run(groups, k + 1, next.0, acc + next.1, t, w, h),
        }
    }
}

/// All points of a group list under a transform and viewBox.
pub open spec fn spec_interpret(
    groups: Seq<(Seq<char>, Seq<int>)>,
    t: Transform,
    w: int,
    h: int,
) -> Result<Seq<FxPoint>, PathError> {
    spec_run(groups, 0, init_state(), Seq::<FxPoint>::empty(), t, w, h)
}

/// A straight line round-trips exactly: with no transform, a move and a
/// line produce exactly the two normalized, flipped endpoints, the first
/// starting the subpath and the second connected to it.
/// A first move: it sets the subpath start and emits one starting point.
proof fn lemma_step_m(st: PathState, args: Seq<int>, t: Transform, w: int, h: int)
    requires
        !st.start_set,
        args.len() >= 2,
    ensures
        spec_step(st, seq!['M'], args, t, w, h) == Ok::<_, PathError>(
            (
                PathState {
                    cur_x: fnorm(args[0], w) as i64,
                    cur_y: fnorm(args[1], h) as i64,
                    start_set: true,
                    start_x: fnorm(args[0], w) as i64,
                    start_y: fnorm(args[1], h) as i64,
                    prev: PrevCtrl::NoCurve,
                },
                seq![
                    spec_emit(
                        t,
                        fnorm(args[0], w) as i64 as int,
                        fnorm(args[1], h) as i64 as int,
                        w,
                        h,
                        true,
                    ),
                ],
            ),
        ),
{
    reveal(spec_step);
    assert(seq!['M'].len() == 1);
    assert(seq!['M'][0] == 'M');
}

/// A line: it emits one connected endpoint and moves the pen there.
proof fn lemma_step_l(st: PathState, args: Seq<int>, t: Transform, w: int, h: int)
    requires
        args.len() >= 2,
    ensures
        spec_step(st, seq!['L'], args, t, w, h) == Ok::<_, PathError>(
            (
                PathState {
                    cur_x: fnorm(args[0], w) as i64,
                    cur_y: fnorm(args[1], h) as i64,
                    prev: PrevCtrl::NoCurve,
                    ..st
                },
                seq![
                    spec_emit(
                        t,
                        fnorm(args[0], w) as i64 as int,
                        fnorm(args[1], h) as i64 as int,
                        w,
                        h,
                        true,
                    ),
                ],
            ),
        ),
{
    reveal(spec_step);
    assert(seq!['L'].len() == 1);
    assert(seq!['L'][0] == 'L');
}

#[verifier::rlimit(100)]
#[verifier::spinoff_prover]
pub proof fn lemma_straight_line_round_trip(x1: int, y1: int, x2: int, y2: int, w: int, h: int)
    ensures
        spec_interpret(
            seq![(seq!['M'], seq![x1, y1]), (seq!['L'], seq![x2, y2])],
            Transform::Identity,
            w,
            h,
        ) == Ok::<_, PathError>(
            seq![
                FxPoint {
                    x: fnorm(x1, w) as i64,
                    y: fsub(HUNDRED as int, fnorm(y1, h)) as i64,
                    connect: true,
                },
                FxPoint {
                    x: fnorm(x2, w) as i64,
                    y: fsub(HUNDRED as int, fnorm(y2, h)) as i64,
                    connect: true,
                },
            ],
        ),
{
    let groups = seq![(seq!['M'], seq![x1, y1]), (seq!['L'], seq![x2, y2])];
    let a1 = seq![x1, y1];
    let a2 = seq![x2, y2];
    assert(a1[0] == x1 && a1[1] == y1 && a2[0] == x2 && a2[1] == y2);
    assert(groups[0] == (seq!['M'], a1) && groups[1] == (seq!['L'], a2));
    let p1 = FxPoint {
        x: fnorm(x1, w) as i64,
        y: fsub(HUNDRED as int, fnorm(y1, h)) as i64,
        connect: true,
    };
    let p2 = FxPoint {
        x: fnorm(x2, w) as i64,
        y: fsub(HUNDRED as int, fnorm(y2, h)) as i64,
        connect: true,
    };
    let st0 = init_state();
    lemma_step_m(st0, a1, Transform::Identity, w, h);
    let e1 = spec_emit(
        Transform::Identity,
        fnorm(x1, w) as i64 as int,
        fnorm(y1, h) as i64 as int,
        w,
        h,
        true,
    );
    assert(fnorm(x1, w) as i64 as int == fnorm(x1, w));
    assert(fnorm(y1, h) as i64 as int == fnorm(y1, h));
    assert(e1 == p1);
    let st1 = spec_step(st0, groups[0].0, groups[0].1, Transform::Identity, w, h)->Ok_0.0;
    lemma_step_l(st1, a2, Transform::Identity, w, h);
    let e2 = spec_emit(
        Transform::Identity,
        fnorm(x2, w) as i64 as int,
        fnorm(y2, h) as i64 as int,
        w,
        h,
        true,
    );
    assert(fnorm(x2, w) as i64 as int == fnorm(x2, w));
    assert(fnorm(y2, h) as i64 as int == fnorm(y2, h));
    assert(e2 == p2);
    assert(Seq::<FxPoint>::empty() + seq![p1] =~= seq![p1]);
    assert(seq![p1] + seq![p2] =~= seq![p1, p2]);
    let st2 = spec_step(st1, groups[1].0, groups[1].1, Transform::Identity, w, h)->Ok_0.0;
    assert(groups.len() == 2);
    assert(spec_run(groups, 0, st0, Seq::<FxPoint>::empty(), Transform::Identity, w, h)
        == spec_run(groups, 1, st1, Seq::<FxPoint>::empty() + seq![p1], Transform::Identity, w, h));
    assert(spec_run(groups, 1, st1, seq![p1], Transform::Identity, w, h) == spec_run(
        groups,
        2,
        st2,
        seq![p1] + seq![p2],
        Transform::Identity,
        w,
        h,
    ));
    assert(spec_run(groups, 2, st2, seq![p1, p2], Transform::Identity, w, h) == Ok::<_, PathError>(
        seq![p1, p2],
    ));
}

/// Fixed sampling counts: a cubic, smooth cubic, quadratic or smooth
/// quadratic command always emits exactly one hundred points, and an arc
/// command that succeeds emits exactly one hundred and one.
#[verifier::rlimit(100)]
pub proof fn lemma_fixed_sampling(
    st: PathState,
    cmd: Seq<char>,
    args: Seq<int>,
    t: Transform,
    w: int,
    h: int,
)
    ensures
        ((cmd == seq!['C'] || cmd == seq!['S'] || cmd == seq!['Q'] || cmd == seq!['T'])
            && spec_step(st, cmd, args, t, w, h) is Ok) ==> spec_step(
            st,
            cmd,
            args,
            t,
            w,
            h,
        )->Ok_0.1.len() == 100,
        (cmd == seq!['A'] && spec_step(st, cmd, args, t, w, h) is Ok) ==> spec_step(
            st,
            cmd,
            args,
            t,
            w,
            h,
        )->Ok_0.1.len() == 101,
{
    reveal(spec_step);
    if cmd == seq!['C'] {
        assert(cmd.len() == 1 && cmd[0] == 'C');
    }
    if cmd == seq!['S'] {
        assert(cmd.len() == 1 && cmd[0] == 'S');
    }
    if cmd == seq!['Q'] {
        assert(cmd.len() == 1 && cmd[0] == 'Q');
    }
    if cmd == seq!['T'] {
        assert(cmd.len() == 1 && cmd[0] == 'T');
    }
    if cmd == seq!['A'] {
        assert(cmd.len() == 1 && cmd[0] == 'A');
    }
}

/// Connect flags: a command's points all carry the connect flag, except
/// that a move in an already-started path emits exactly one pen-up point.
#[verifier::rlimit(100)]
pub proof fn lemma_connect_flags(
    st: PathState,
    cmd: Seq<char>,
    args: Seq<int>,
    t: Transform,
    w: int,
    h: int,
)
    ensures
        spec_step(st, cmd, args, t, w, h) matches Ok(p) ==> {
            if cmd == seq!['M'] && st.start_set {
                p.1.len() == 1 && !p.1[0].connect
            } else {
                forall|i: int| 0 <= i < p.1.len() ==> (#[trigger] p.1[i]).connect
            }
        },
{
    reveal(spec_step);
    if cmd.len() == 1 && cmd[0] == 'M' {
        assert(cmd =~= seq!['M']);
    }
    if spec_step(st, cmd, args, t, w, h) is Ok {
        let p = spec_step(st, cmd, args, t, w, h)->Ok_0;
        if !(cmd == seq!['M'] && st.start_set) {
            assert forall|i: int| 0 <= i < p.1.len() implies (#[trigger] p.1[i]).connect by {
                if cmd.len() == 1 && cmd[0] == 'M' && !st.start_set {
                    assert(p.1[i].connect);
                }
            }
        }
    }
}

/// How many pen-up breaks a point sequence carries.
pub open spec fn count_breaks(pts: Seq<FxPoint>) -> int
    decreases pts.len(),
{
    if pts.len() == 0 {
        0
    } else {
        count_breaks(pts.drop_last()) + if pts.last().connect {
            0int
        } else {
            1int
        }
    }
}

/// How many move commands stand at or after position `k`.
pub open spec fn count_moves(groups: Seq<(Seq<char>, Seq<int>)>, k: int) -> int
    decreases groups.len() - k,
{
    if k < 0 || k >= groups.len() {
        0
    } else {
        count_moves(groups, k + 1) + if groups[k].0 == seq!['M'] {
            1int
        } else {
            0int
        }
    }
}

proof fn lemma_breaks_concat(a: Seq<FxPoint>, b: Seq<FxPoint>)
    ensures
        count_breaks(a + b) == count_breaks(a) + count_breaks(b),
    decreases b.len(),
{
    if b.len() == 0 {
        assert(a + b =~= a);
    } else {
        lemma_breaks_concat(a, b.drop_last());
        assert((a + b).drop_last() =~= a + b.drop_last());
        assert((a + b).last() == b.last());
    }
}

proof fn lemma_breaks_all_connect(pts: Seq<FxPoint>)
    requires
        forall|i: int| 0 <= i < pts.len() ==> (#[trigger] pts[i]).connect,
    ensures
        count_breaks(pts) == 0,
    decreases pts.len(),
{
    if pts.len() > 0 {
        assert(forall|i: int|
            0 <= i < pts.len() - 1 ==> pts.drop_last()[i] == #[trigger] pts[i]);
        lemma_breaks_all_connect(pts.drop_last());
    }
}

/// One command's contribution to the break count: a move in a started
/// path contributes exactly one break, everything else none.
proof fn lemma_step_breaks(
    st: PathState,
    cmd: Seq<char>,
    args: Seq<int>,
    t: Transform,
    w: int,
    h: int,
)
    requires
        st.start_set,
        spec_step(st, cmd, args, t, w, h) is Ok,
    ensures
        count_breaks(spec_step(st, cmd, args, t, w, h)->Ok_0.1) == (if cmd == seq!['M'] {
            1int
        } else {
            0int
        }),
{
    lemma_connect_flags(st, cmd, args, t, w, h);
    let p = spec_step(st, cmd, args, t, w, h)->Ok_0;
    assert(count_breaks(Seq::<FxPoint>::empty()) == 0);
    if cmd == seq!['M'] {
        assert(p.1.len() == 1 && !p.1[0].connect);
        assert(p.1.drop_last() =~= Seq::<FxPoint>::empty());
        assert(p.1.last() == p.1[0]);
        assert(count_breaks(p.1) == count_breaks(p.1.drop_last()) + 1);
    } else {
        lemma_breaks_all_connect(p.1);
    }
}

proof fn lemma_run_breaks(
    groups: Seq<(Seq<char>, Seq<int>)>,
    k: int,
    st: PathState,
    acc: Seq<FxPoint>,
    t: Transform,
    w: int,
    h: int,
)
    requires
        0 <= k,
        st.start_set,
        spec_run(groups, k, st, acc, t, w, h) is Ok,
    ensures
        count_breaks(spec_run(groups, k, st, acc, t, w, h)->Ok_0) == count_breaks(acc)
            + count_moves(groups, k),
    decreases groups.len() - k,
{
    if k < groups.len() {
        let next = spec_step(st, groups[k].0, groups[k].1, t, w, h)->Ok_0;
        lemma_step_preserves_start(st, groups[k].0, groups[k].1, t, w, h);
        lemma_step_breaks(st, groups[k].0, groups[k].1, t, w, h);
        lemma_breaks_concat(acc, next.1);
        lemma_run_breaks(groups, k + 1, next.0, acc + next.1, t, w, h);
    }
}

/// Subpath breaks: in a path opened by a move, the points carry exactly
/// one pen-up break for every later move command - the second and each
/// further move starts a new subpath, and nothing else ever lifts the pen.
pub proof fn lemma_subpath_breaks(groups: Seq<(Seq<char>, Seq<int>)>, t: Transform, w: int, h: int)
    requires
        groups.len() >= 1,
        groups[0].0 == seq!['M'],
        groups[0].1.len() >= 2,
        spec_interpret(groups, t, w, h) is Ok,
    ensures
        count_breaks(spec_interpret(groups, t, w, h)->Ok_0) == count_moves(groups, 1),
{
    let st0 = init_state();
    lemma_step_m(st0, groups[0].1, t, w, h);
    let step1 = spec_step(st0, groups[0].0, groups[0].1, t, w, h);
    let st1 = step1->Ok_0.0;
    let p1 = spec_emit(
        t,
        fnorm(groups[0].1[0], w) as i64 as int,
        fnorm(groups[0].1[1], h) as i64 as int,
        w,
        h,
        true,
    );
    assert(step1->Ok_0.1 == seq![p1]);
    assert(st1.start_set);
    let acc1 = Seq::<FxPoint>::empty() + seq![p1];
    assert(spec_interpret(groups, t, w, h) == spec_run(groups, 1, st1, acc1, t, w, h));
    lemma_run_breaks(groups, 1, st1, acc1, t, w, h);
    assert(acc1 =~= seq![p1]);
    assert(acc1.drop_last() =~= Seq::<FxPoint>::empty());
    assert(count_breaks(Seq::<FxPoint>::empty()) == 0);
    assert(acc1.last() == p1);
    assert(count_breaks(acc1) == 0);
}

/// Once a subpath start is set, no later command moves or clears it.
proof fn lemma_step_preserves_start(
    st: PathState,
    cmd: Seq<char>,
    args: Seq<int>,
    t: Transform,
    w: int,
    h: int,
)
    requires
        st.start_set,
        spec_step(st, cmd, args, t, w, h) matches Ok(next),
    ensures
        spec_step(st, cmd, args, t, w, h) matches Ok(next) ==> next.0.start_set
            && next.0.start_x == st.start_x && next.0.start_y == st.start_y,
{
    reveal(spec_step);
}

/// The accumulator already gathered is a prefix of whatever the run
/// finally returns.
proof fn lemma_run_prefix(
    groups: Seq<(Seq<char>, Seq<int>)>,
    k: int,
    st: PathState,
    acc: Seq<FxPoint>,
    t: Transform,
    w: int,
    h: int,
)
    requires
        spec_run(groups, k, st, acc, t, w, h) matches Ok(pts),
    ensures
        spec_run(groups, k, st, acc, t, w, h) matches Ok(pts) ==> pts.len() >= acc.len()
            && pts.subrange(0, acc.len() as int) == acc,
    decreases groups.len() - k,
{
    let pts = spec_run(groups, k, st, acc, t, w, h)->Ok_0;
    if k < 0 || k >= groups.len() {
        assert(pts.subrange(0, acc.len() as int) =~= acc);
    } else {
        let next = spec_step(st, groups[k].0, groups[k].1, t, w, h)->Ok_0;
        lemma_run_prefix(groups, k + 1, next.0, acc + next.1, t, w, h);
        assert(pts.subrange(0, (acc + next.1).len() as int) == acc + next.1);
        assert(pts.subrange(0, acc.len() as int) =~= acc) by {
            assert(forall|i: int|
                0 <= i < acc.len() ==> pts.subrange(0, (acc + next.1).len() as int)[i] == #[trigger] pts[i]);
            assert(forall|i: int| 0 <= i < acc.len() ==> (acc + next.1)[i] == #[trigger] acc[i]);
        }
    }
}

/// If the remaining groups end in a close command and the run succeeds,
/// the final point is the emitted subpath start.
proof fn lemma_run_z_last(
    groups: Seq<(Seq<char>, Seq<int>)>,
    k: int,
    st: PathState,
    acc: Seq<FxPoint>,
    t: Transform,
    w: int,
    h: int,
)
    requires
        0 <= k < groups.len(),
        st.start_set,
        groups.last().0 == seq!['Z'],
        spec_run(groups, k, st, acc, t, w, h) matches Ok(pts),
    ensures
        spec_run(groups, k, st, acc, t, w, h) matches Ok(pts) ==> pts.len() > 0 && pts.last()
            == spec_emit(t, st.start_x as int, st.start_y as int, w, h, true),
    decreases groups.len() - k,
{
    reveal(spec_step);
    let pts = spec_run(groups, k, st, acc, t, w, h)->Ok_0;
    let next = spec_step(st, groups[k].0, groups[k].1, t, w, h)->Ok_0;
    if k == groups.len() - 1 {
        assert(groups[k].0 == seq!['Z']);
        assert(groups[k].0.len() == 1 && groups[k].0[0] == 'Z');
        let zp = spec_emit(t, st.start_x as int, st.start_y as int, w, h, true);
        assert(next.1 =~= seq![zp]);
        assert(pts == acc + seq![zp]);
        assert(pts.last() == zp);
    } else {
        lemma_step_preserves_start(st, groups[k].0, groups[k].1, t, w, h);
        lemma_run_z_last(groups, k + 1, next.0, acc + next.1, t, w, h);
    }
}

/// Closure: a path that starts with a move and ends with a close command
/// finishes exactly where it began - the last point's coordinates equal
/// the first point's.
#[verifier::rlimit(100)]
pub proof fn lemma_close_returns_to_start(
    groups: Seq<(Seq<char>, Seq<int>)>,
    t: Transform,
    w: int,
    h: int,
)
    requires
        groups.len() >= 2,
        groups[0].0 == seq!['M'],
        groups[0].1.len() >= 2,
        groups.last().0 == seq!['Z'],
        spec_interpret(groups, t, w, h) matches Ok(pts),
    ensures
        spec_interpret(groups, t, w, h) matches Ok(pts) ==> pts.len() > 0 && pts[0].x
            == pts.last().x && pts[0].y == pts.last().y,
{
    reveal(spec_step);
    let pts = spec_interpret(groups, t, w, h)->Ok_0;
    let st0 = init_state();
    assert(groups[0].0.len() == 1 && groups[0].0[0] == 'M');
    let step1 = spec_step(st0, groups[0].0, groups[0].1, t, w, h);
    let x = fnorm(groups[0].1[0], w) as i64;
    let y = fnorm(groups[0].1[1], h) as i64;
    let p1 = spec_emit(t, x as int, y as int, w, h, true);
    let st1 = step1->Ok_0.0;
    assert(st1.start_set && st1.start_x == x && st1.start_y == y);
    assert(step1->Ok_0.1 =~= seq![p1]);
    assert(spec_run(groups, 1, st1, Seq::<FxPoint>::empty() + seq![p1], t, w, h) == Ok::<
        _,
        PathError,
    >(pts));
    let acc1 = Seq::<FxPoint>::empty() + seq![p1];
    assert(acc1 =~= seq![p1]);
    lemma_run_prefix(groups, 1, st1, acc1, t, w, h);
    assert(pts.subrange(0, 1)[0] == pts[0]);
    assert(pts[0] == p1);
    lemma_run_z_last(groups, 1, st1, acc1, t, w, h);
    assert(pts.last() == spec_emit(t, x as int, y as int, w, h, true));
}

/// Emit one point through the transform and the vertical flip.
fn emit_point(t: &Transform, x: i64, y: i64, w: i64, h: i64, connect: bool) -> (p: FxPoint)
    requires
        w != 0,
        h != 0,
    ensures
        p == spec_emit(*t, x as int, y as int, w as int, h as int, connect),
{
    let q: (i64, i64) = apply_transform(t, x, y, w, h);
    FxPoint { x: q.0, y: fx_sub(HUNDRED, q.1), connect }
}

/// Interpret tokenized command groups into the point sequence.
#[verifier::rlimit(100)]
#[verifier::loop_isolation(false)]
pub fn interpret(groups: &Vec<CommandGroup>, t: &Transform, w: i64, h: i64) -> (r: Result<
    Vec<FxPoint>,
    PathError,
>)
    requires
        w != 0,
        h != 0,
        groups_args_ok(groups_view(groups@)),
    ensures
        match r {
            Ok(pts) => spec_interpret(groups_view(groups@), *t, w as int, h as int) == Ok::<
                _,
                PathError,
            >(pts@),
            Err(e) => spec_interpret(groups_view(groups@), *t, w as int, h as int) == Err::<
                Seq<FxPoint>,
                _,
            >(e),
        },
{
    let ghost gv = groups_view(groups@);
    let n: usize = groups.len();
    let mut st = PathState {
        cur_x: 0,
        cur_y: 0,
        start_set: false,
        start_x: 0,
        start_y: 0,
        prev: PrevCtrl::NoCurve,
    };
    let mut out: Vec<FxPoint> = Vec::new();
    let mut k: usize = 0;
    proof {
        assert(st == init_state());
        assert(out@ =~= Seq::<FxPoint>::empty());
    }
    while k < n
        invariant
            0 <= k <= n,
            n == groups.len(),
            state_ok(st),
            spec_interpret(gv, *t, w as int, h as int) == spec_run(
                gv,
                k as int,
                st,
                out@,
                *t,
                w as int,
                h as int,
            ),
        decreases n - k,
    {
        let g: &CommandGroup = &groups[k];
        proof {
            assert(gv[k as int] == (g.cmd@, g.args@.map_values(|a: i64| a as int)));
            assert forall|j: int| 0 <= j < g.args@.len() implies fx_ok(
                #[trigger] g.args@[j] as int,
            ) by {
                assert(gv[k as int].1[j] == g.args@[j] as int);
            }
        }
        let stepped: Result<(PathState, Vec<FxPoint>), PathError> = step_group(&st, g, t, w, h);
        match stepped {
            Err(e) => {
                return Err(e);
            },
            Ok(sp) => {
                let (st2, mut pts) = sp;
                let ghost ptsv = pts@;
                let ghost old_out = out@;
                out.append(&mut pts);
                proof {
                    assert(out@ =~= old_out + ptsv);
                }
                st = st2;
            },
        }
        k += 1;
    }
    Ok(out)
}

/// Everything one path element turns into: its outline points and, when
/// the style declares a fill, the bounding-box fill cells.
pub open spec fn spec_draw_path(
    d: Seq<char>,
    tr: Seq<char>,
    has_fill: bool,
    w: int,
    h: int,
) -> Result<(Seq<FxPoint>, Option<Seq<FxPoint>>), PathError> {
    match spec_parse_transform(tr) {
        Err(e) => Err(e),
        Ok(t) => match spec_tokenize(d) {
            Err(e) => Err(e),
            Ok(gs) => match spec_interpret(gs, t, w, h) {
                Err(e) => Err(e),
                Ok(pts) => Ok(
                    (
                        pts,
                        if has_fill {
                            Some(spec_fill_points(pts))
                        } else {
                            None
                        },
                    ),
                ),
            },
        },
    }
}

/// Interpret one path element: tokenize its data, parse its transform,
/// run the state machine, and rasterize the fill if the style asks for one.
pub fn draw_path(d: &str, transform_attr: &str, style: &str, w: i64, h: i64) -> (r: Result<
    (Vec<FxPoint>, Option<Vec<FxPoint>>),
    PathError,
>)
    requires
        w != 0,
        h != 0,
    ensures
        match r {
            Ok(p) => spec_draw_path(d@, transform_attr@, fill_match(style@), w as int, h as int)
                == Ok::<_, PathError>(
                (
                    p.0@,
                    match p.1 {
                        Some(f) => Some(f@),
                        None => None,
                    },
                ),
            ),
            Err(e) => spec_draw_path(d@, transform_attr@, fill_match(style@), w as int, h as int)
                == Err::<(Seq<FxPoint>, Option<Seq<FxPoint>>), _>(e),
        },
{
    let t: Transform = match parse_transform(transform_attr) {
        Err(e) => {
            return Err(e);
        },
        Ok(t) => t,
    };
    let groups: Vec<CommandGroup> = match tokenize_path(d) {
        Err(e) => {
            return Err(e);
        },
        Ok(gs) => gs,
    };
    let pts: Vec<FxPoint> = match interpret(&groups, &t, w, h) {
        Err(e) => {
            return Err(e);
        },
        Ok(p) => p,
    };
    if style_has_fill(style) {
        let f: Vec<FxPoint> = fill_points(&pts);
        Ok((pts, Some(f)))
    } else {
        Ok((pts, None))
    }
}

/// Execute one command group.
#[verifier::rlimit(100)]
#[verifier::loop_isolation(false)]
fn step_group(st: &PathState, g: &CommandGroup, t: &Transform, w: i64, h: i64) -> (r: Result<
    (PathState, Vec<FxPoint>),
    PathError,
>)
    requires
        w != 0,
        h != 0,
        state_ok(*st),
        forall|j: int| 0 <= j < g.args@.len() ==> fx_ok(#[trigger] g.args@[j] as int),
    ensures
        ({
            let sr = spec_step(
                *st,
                g.cmd@,
                g.args@.map_values(|a: i64| a as int),
                *t,
                w as int,
                h as int,
            );
            match r {
                Ok(p) => sr == Ok::<_, PathError>((p.0, p.1@)) && state_ok(p.0),
                Err(e) => sr == Err::<(PathState, Seq<FxPoint>), _>(e),
            }
        }),
{
    proof {
        reveal(spec_step);
    }
    let ghost av = g.args@.map_values(|a: i64| a as int);
    let clen: usize = g.cmd.as_str().unicode_len();
    if clen != 1 {
        return Ok((*st, Vec::new()));
    }
    let c: char = g.cmd.as_str().get_char(0);
    let na: usize = g.args.len();
    if c == 'M' {
        if na < 2 {
            return Err(PathError::MissingArgs);
        }
        let x: i64 = norm_coord(g.args[0], w);
        let y: i64 = norm_coord(g.args[1], h);
        let p: FxPoint = emit_point(t, x, y, w, h, !st.start_set);
        let mut pts: Vec<FxPoint> = Vec::new();
        pts.push(p);
        proof {
            assert(pts@ =~= seq![p]);
        }
        if !st.start_set {
            Ok(
                (
                    PathState {
                        cur_x: x,
                        cur_y: y,
                        start_set: true,
                        start_x: x,
                        start_y: y,
                        prev: PrevCtrl::NoCurve,
                    },
                    pts,
                ),
            )
        } else {
            Ok((PathState { cur_x: x, cur_y: y, prev: PrevCtrl::NoCurve, ..*st }, pts))
        }
    } else if c == 'L' {
        if na < 2 {
            return Err(PathError::MissingArgs);
        }
        let x: i64 = norm_coord(g.args[0], w);
        let y: i64 = norm_coord(g.args[1], h);
        let p: FxPoint = emit_point(t, x, y, w, h, true);
        let mut pts: Vec<FxPoint> = Vec::new();
        pts.push(p);
        proof {
            assert(pts@ =~= seq![p]);
        }
        Ok((PathState { cur_x: x, cur_y: y, prev: PrevCtrl::NoCurve, ..*st }, pts))
    } else if c == 'H' {
        if na < 1 {
            return Err(PathError::MissingArgs);
        }
        let x: i64 = norm_coord(g.args[0], w);
        let p: FxPoint = emit_point(t, x, st.cur_y, w, h, true);
        let mut pts: Vec<FxPoint> = Vec::new();
        pts.push(p);
        proof {
            assert(pts@ =~= seq![p]);
        }
        Ok((PathState { cur_x: x, prev: PrevCtrl::NoCurve, ..*st }, pts))
    } else if c == 'V' {
        if na < 1 {
            return Err(PathError::MissingArgs);
        }
        let y: i64 = norm_coord(g.args[0], h);
        let p: FxPoint = emit_point(t, st.cur_x, y, w, h, true);
        let mut pts: Vec<FxPoint> = Vec::new();
        pts.push(p);
        proof {
            assert(pts@ =~= seq![p]);
        }
        Ok((PathState { cur_y: y, prev: PrevCtrl::NoCurve, ..*st }, pts))
    } else if c == 'C' || c == 'S' {
        let need: usize = if c == 'C' {
            6
        } else {
            4
        };
        if na < need {
            return Err(PathError::MissingArgs);
        }
        let c1: (i64, i64) = if c == 'C' {
            (norm_coord(g.args[0], w), norm_coord(g.args[1], h))
        } else {
            match st.prev {
                PrevCtrl::Cubic(px, py) => (
                    fx_add(st.cur_x, fx_sub(st.cur_x, px)),
                    fx_add(st.cur_y, fx_sub(st.cur_y, py)),
                ),
                _ => (st.cur_x, st.cur_y),
            }
        };
        let base: usize = if c == 'C' {
            2
        } else {
            0
        };
        let c2: (i64, i64) = (norm_coord(g.args[base], w), norm_coord(g.args[base + 1], h));
        let e: (i64, i64) = (norm_coord(g.args[base + 2], w), norm_coord(g.args[base + 3], h));
        let ghost c1s = (c1.0 as int, c1.1 as int);
        let ghost c2s = (c2.0 as int, c2.1 as int);
        let ghost es = (e.0 as int, e.1 as int);
        let ghost pspec = Seq::new(
            100,
            |i: int|
                {
                    let p = cubic_point((st.cur_x as int, st.cur_y as int), c1s, c2s, es, i);
                    spec_emit(*t, p.0, p.1, w as int, h as int, true)
                },
        );
        let mut pts: Vec<FxPoint> = Vec::new();
        let mut i: usize = 0;
        proof {
            assert(pts@ =~= pspec.take(0));
        }
        while i < 100
            invariant
                0 <= i <= 100,
                pts@ == pspec.take(i as int),
            decreases 100 - i,
        {
            let q: (i64, i64) = cubic_bezier_curve(
                (st.cur_x, st.cur_y),
                c1,
                c2,
                e,
                i as i64,
            );
            let p: FxPoint = emit_point(t, q.0, q.1, w, h, true);
            pts.push(p);
            proof {
                assert(pspec[i as int] == p);
                assert(pspec.take(i + 1) =~= pspec.take(i as int).push(pspec[i as int]));
            }
            i += 1;
        }
        proof {
            assert(pspec.take(100) =~= pspec);
        }
        Ok(
            (
                PathState {
                    cur_x: e.0,
                    cur_y: e.1,
                    prev: PrevCtrl::Cubic(c2.0, c2.1),
                    ..*st
                },
                pts,
            ),
        )
    } else if c == 'Q' || c == 'T' {
        let need: usize = if c == 'Q' {
            4
        } else {
            2
        };
        if na < need {
            return Err(PathError::MissingArgs);
        }
        let ctrl: (i64, i64) = if c == 'Q' {
            (norm_coord(g.args[0], w), norm_coord(g.args[1], h))
        } else {
            match st.prev {
                PrevCtrl::Quad(px, py) => (
                    fx_add(st.cur_x, fx_sub(st.cur_x, px)),
                    fx_add(st.cur_y, fx_sub(st.cur_y, py)),
                ),
                _ => (st.cur_x, st.cur_y),
            }
        };
        let base: usize = if c == 'Q' {
            2
        } else {
            0
        };
        let e: (i64, i64) = (norm_coord(g.args[base], w), norm_coord(g.args[base + 1], h));
        let ghost cs = (ctrl.0 as int, ctrl.1 as int);
        let ghost es = (e.0 as int, e.1 as int);
        let ghost pspec = Seq::new(
            100,
            |i: int|
                {
                    let p = quad_point((st.cur_x as int, st.cur_y as int), cs, es, i);
                    spec_emit(*t, p.0, p.1, w as int, h as int, true)
                },
        );
        let mut pts: Vec<FxPoint> = Vec::new();
        let mut i: usize = 0;
        proof {
            assert(pts@ =~= pspec.take(0));
        }
        while i < 100
            invariant
                0 <= i <= 100,
                pts@ == pspec.take(i as int),
            decreases 100 - i,
        {
            let q: (i64, i64) = quadratic_bezier_curve((st.cur_x, st.cur_y), ctrl, e, i as i64);
            let p: FxPoint = emit_point(t, q.0, q.1, w, h, true);
            pts.push(p);
            proof {
                assert(pspec[i as int] == p);
                assert(pspec.take(i + 1) =~= pspec.take(i as int).push(pspec[i as int]));
            }
            i += 1;
        }
        proof {
            assert(pspec.take(100) =~= pspec);
        }
        Ok(
            (
                PathState {
                    cur_x: e.0,
                    cur_y: e.1,
                    prev: PrevCtrl::Quad(ctrl.0, ctrl.1),
                    ..*st
                },
                pts,
            ),
        )
    } else if c == 'A' {
        if na < 7 {
            return Err(PathError::MissingArgs);
        }
        let rx: i64 = norm_coord(g.args[0], w);
        let ry: i64 = norm_coord(g.args[1], h);
        let laf: bool = g.args[3] == 1_000_000;
        let sf: bool = g.args[4] == 1_000_000;
        let e: (i64, i64) = (norm_coord(g.args[5], w), norm_coord(g.args[6], h));
        let arc: Result<Vec<(i64, i64)>, PathError> = elliptical_arc(
            st.cur_x,
            st.cur_y,
            rx,
            ry,
            g.args[2],
            laf,
            sf,
            e.0,
            e.1,
            100,
        );
        match arc {
            Err(er) => Err(er),
            Ok(samples) => {
                let ghost sp = spec_arc_points(
                    st.cur_x as int,
                    st.cur_y as int,
                    rx as int,
                    ry as int,
                    av[2],
                    laf,
                    sf,
                    e.0 as int,
                    e.1 as int,
                    100,
                )->Ok_0;
                let ghost pspec = Seq::new(
                    sp.len(),
                    |i: int| spec_emit(*t, sp[i].0, sp[i].1, w as int, h as int, true),
                );
                let m: usize = samples.len();
                let mut pts: Vec<FxPoint> = Vec::new();
                let mut i: usize = 0;
                proof {
                    assert(pts@ =~= pspec.take(0));
                    assert(samples@.map_values(|p: (i64, i64)| (p.0 as int, p.1 as int)) == sp);
                }
                while i < m
                    invariant
                        0 <= i <= m,
                        m == samples.len(),
                        m == sp.len(),
                        pspec == Seq::new(
                            sp.len(),
                            |j: int| spec_emit(*t, sp[j].0, sp[j].1, w as int, h as int, true),
                        ),
                        samples@.map_values(|p: (i64, i64)| (p.0 as int, p.1 as int)) == sp,
                        pts@ == pspec.take(i as int),
                    decreases m - i,
                {
                    let q: (i64, i64) = samples[i];
                    proof {
                        assert(sp[i as int] == (q.0 as int, q.1 as int));
                    }
                    let p: FxPoint = emit_point(t, q.0, q.1, w, h, true);
                    pts.push(p);
                    proof {
                        assert(pspec[i as int] == p);
                        assert(pspec.take(i + 1) =~= pspec.take(i as int).push(pspec[i as int]));
                    }
                    i += 1;
                }
                proof {
                    assert(pspec.take(m as int) =~= pspec);
                }
                Ok(
                    (
                        PathState {
                            cur_x: e.0,
                            cur_y: e.1,
                            prev: PrevCtrl::NoCurve,
                            ..*st
                        },
                        pts,
                    ),
                )
            },
        }
    } else if c == 'Z' {
        if !st.start_set {
            return Err(PathError::NoSubpathStart);
        }
        let p: FxPoint = emit_point(t, st.start_x, st.start_y, w, h, true);
        let mut pts: Vec<FxPoint> = Vec::new();
        pts.push(p);
        proof {
            assert(pts@ =~= seq![p]);
        }
        Ok((*st, pts))
    } else {
        Ok((*st, Vec::new()))
    }
}

} // verus!
