//! Parsing and applying one affine transform attribute.
//!
//! Recognized forms are `matrix(a,b,c,d,e,f)`, `translate(tx[,ty])`,
//! `scale(sx[,sy])`, `rotate(angle)` about the origin, `skewX(angle)` and
//! `skewY(angle)`.  Argument lists are split tolerantly on any run of
//! commas and spaces.  An empty attribute is the identity; a recognized
//! name with a malformed argument list is an element-level error; an
//! unrecognized name applies as the identity but is kept distinguishable.

use vstd::prelude::*;
use crate::fx::{fadd, fmul, fnorm, fsub, fx_add, fx_mul, fx_sub, norm_coord};
use crate::model::{PathError, Transform};
use crate::num::{parse_fixed, parse_fx};
use crate::scan::{has_prefix, split_seps, split_ws_comma, str_has_prefix};
use crate::trig::{cos_fx, deg_to_rad, frad, ftan, sin_fx, spec_cos, spec_sin, tan_fx};

verus! {

/// Values of an argument list, or nothing if any token is not a number.
pub open spec fn parse_args_s(toks: Seq<Seq<char>>) -> Option<Seq<int>>
    decreases toks.len(),
{
    if toks.len() == 0 {
        Some(Seq::<int>::empty())
    } else {
        match parse_args_s(toks.drop_last()) {
            None => None,
            Some(pre) => match parse_fx(toks.last()) {
                None => None,
                Some(v) => Some(pre.push(v)),
            },
        }
    }
}

/// The transform named by a recognized prefix, given its parsed arguments.
pub open spec fn transform_of(s: Seq<char>, args: Seq<int>) -> Result<Transform, PathError> {
    if has_prefix(s, "matrix("@) {
        if args.len() >= 6 {
            Ok(
                Transform::Matrix(
                    args[0] as i64,
                    args[1] as i64,
                    args[2] as i64,
                    args[3] as i64,
                    args[4] as i64,
                    args[5] as i64,
                ),
            )
        } else {
            Err(PathError::BadTransform)
        }
    } else if has_prefix(s, "translate("@) {
        if args.len() >= 2 {
            Ok(Transform::Translate(args[0] as i64, args[1] as i64))
        } else if args.len() == 1 {
            Ok(Transform::Translate(args[0] as i64, 0))
        } else {
            Err(PathError::BadTransform)
        }
    } else if has_prefix(s, "scale("@) {
        if args.len() >= 2 {
            Ok(Transform::Scale(args[0] as i64, args[1] as i64))
        } else if args.len() == 1 {
            Ok(Transform::Scale(args[0] as i64, args[0] as i64))
        } else {
            Err(PathError::BadTransform)
        }
    } else if has_prefix(s, "rotate("@) {
        if args.len() >= 1 {
            Ok(Transform::Rotate(args[0] as i64))
        } else {
            Err(PathError::BadTransform)
        }
    } else if has_prefix(s, "skewX("@) {
        if args.len() >= 1 {
            Ok(Transform::SkewX(args[0] as i64))
        } else {
            Err(PathError::BadTransform)
        }
    } else {
        if args.len() >= 1 {
            Ok(Transform::SkewY(args[0] as i64))
        } else {
            Err(PathError::BadTransform)
        }
    }
}

/// Is some recognized transform function named at the start of `s`?
pub open spec fn recognized(s: Seq<char>) -> bool {
    ||| has_prefix(s, "matrix("@)
    ||| has_prefix(s, "translate("@)
    ||| has_prefix(s, "scale("@)
    ||| has_prefix(s, "rotate("@)
    ||| has_prefix(s, "skewX("@)
    ||| has_prefix(s, "skewY("@)
}

/// What a whole transform attribute parses to.
pub open spec fn spec_parse_transform(s: Seq<char>) -> Result<Transform, PathError> {
    if s.len() == 0 {
        Ok(Transform::Identity)
    } else if recognized(s) {
        if s.last() != ')' {
            Err(PathError::BadTransform)
        } else {
            let inner = s.subrange(prefix_len(s), s.len() - 1);
            match parse_args_s(split_seps(inner)) {
                None => Err(PathError::BadTransform),
                Some(args) => transform_of(s, args),
            }
        }
    } else {
        Ok(Transform::Unsupported)
    }
}

/// Length of the recognized prefix, up to and including its parenthesis.
pub open spec fn prefix_len(s: Seq<char>) -> int {
    if has_prefix(s, "matrix("@) {
        7
    } else if has_prefix(s, "translate("@) {
        10
    } else if has_prefix(s, "scale("@) {
        6
    } else if has_prefix(s, "rotate("@) {
        7
    } else {
        6
    }
}

/// Parse a transform attribute.
pub fn parse_transform(s: &str) -> (r: Result<Transform, PathError>)
    ensures
        r == spec_parse_transform(s@),
{
    let n: usize = s.unicode_len();
    if n == 0 {
        return Ok(Transform::Identity);
    }
    let pl: usize = if str_has_prefix(s, "matrix(") {
        7
    } else if str_has_prefix(s, "translate(") {
        10
    } else if str_has_prefix(s, "scale(") {
        6
    } else if str_has_prefix(s, "rotate(") {
        7
    } else if str_has_prefix(s, "skewX(") {
        6
    } else if str_has_prefix(s, "skewY(") {
        6
    } else {
        proof {
            reveal_strlit("matrix(");
            reveal_strlit("translate(");
            reveal_strlit("scale(");
            reveal_strlit("rotate(");
            reveal_strlit("skewX(");
            reveal_strlit("skewY(");
        }
        return Ok(Transform::Unsupported);
    };
    proof {
        reveal_strlit("matrix(");
        reveal_strlit("translate(");
        reveal_strlit("scale(");
        reveal_strlit("rotate(");
        reveal_strlit("skewX(");
        reveal_strlit("skewY(");
        assert(pl as int == prefix_len(s@));
    }
    if s.get_char(n - 1) != ')' {
        return Err(PathError::BadTransform);
    }
    proof {
        // the closing parenthesis cannot be the prefix's own parenthesis
        if n - 1 < pl {
            assert(s@[n - 1] == s@[pl - 1]);
            assert(s@[pl - 1] == '(');
        }
        assert(pl <= n - 1);
    }
    let inner: &str = s.substring_char(pl, n - 1);
    let toks: Vec<String> = split_ws_comma(inner);
    let parsed: Option<Vec<i64>> = parse_args(&toks);
    match parsed {
        None => Err(PathError::BadTransform),
        Some(args) => {
            proof {
                assert(inner@ == s@.subrange(prefix_len(s@), s@.len() - 1));
            }
            if str_has_prefix(s, "matrix(") {
                if args.len() >= 6 {
                    Ok(
                        Transform::Matrix(
                            args[0],
                            args[1],
                            args[2],
                            args[3],
                            args[4],
                            args[5],
                        ),
                    )
                } else {
                    Err(PathError::BadTransform)
                }
            } else if str_has_prefix(s, "translate(") {
                if args.len() >= 2 {
                    Ok(Transform::Translate(args[0], args[1]))
                } else if args.len() == 1 {
                    Ok(Transform::Translate(args[0], 0))
                } else {
                    Err(PathError::BadTransform)
                }
            } else if str_has_prefix(s, "scale(") {
                if args.len() >= 2 {
                    Ok(Transform::Scale(args[0], args[1]))
                } else if args.len() == 1 {
                    Ok(Transform::Scale(args[0], args[0]))
                } else {
                    Err(PathError::BadTransform)
                }
            } else if str_has_prefix(s, "rotate(") {
                if args.len() >= 1 {
                    Ok(Transform::Rotate(args[0]))
                } else {
                    Err(PathError::BadTransform)
                }
            } else if str_has_prefix(s, "skewX(") {
                if args.len() >= 1 {
                    Ok(Transform::SkewX(args[0]))
                } else {
                    Err(PathError::BadTransform)
                }
            } else {
                if args.len() >= 1 {
                    Ok(Transform::SkewY(args[0]))
                } else {
                    Err(PathError::BadTransform)
                }
            }
        },
    }
}

/// Parse every token of an argument list.
fn parse_args(toks: &Vec<String>) -> (r: Option<Vec<i64>>)
    ensures
        match r {
            Some(v) => parse_args_s(toks.deep_view()) == Some(
                v@.map_values(|a: i64| a as int),
            ),
            None => parse_args_s(toks.deep_view()) is None,
        },
{
    let mut out: Vec<i64> = Vec::new();
    let mut i: usize = 0;
    let n: usize = toks.len();
    proof {
        assert(toks.deep_view().subrange(0, 0) =~= Seq::<Seq<char>>::empty());
        assert(out@.map_values(|a: i64| a as int) =~= Seq::<int>::empty());
    }
    while i < n
        invariant
            0 <= i <= n,
            n == toks.len(),
            parse_args_s(toks.deep_view().subrange(0, i as int)) == Some(
                out@.map_values(|a: i64| a as int),
            ),
        decreases n - i,
    {
        let tok: &String = &toks[i];
        proof {
            assert(toks.deep_view()[i as int] == toks[i as int]@);
        }
        match parse_fixed(tok.as_str()) {
            None => {
                proof {
                    lemma_parse_args_prefix_none(toks.deep_view(), i as int);
                }
                return None;
            },
            Some(v) => {
                let ghost old_map = out@.map_values(|a: i64| a as int);
                out.push(v);
                proof {
                    let pre = toks.deep_view().subrange(0, i as int);
                    let post = toks.deep_view().subrange(0, i + 1);
                    assert(post.drop_last() =~= pre);
                    assert(post.last() == toks.deep_view()[i as int]);
                    assert(out@.map_values(|a: i64| a as int) =~= old_map.push(v as int));
                }
            },
        }
        i += 1;
    }
    proof {
        assert(toks.deep_view().subrange(0, n as int) =~= toks.deep_view());
    }
    Some(out)
}

pub proof fn lemma_parse_args_prefix_none(toks: Seq<Seq<char>>, k: int)
    requires
        0 <= k < toks.len(),
        parse_fx(toks[k]) is None,
    ensures
        parse_args_s(toks) is None,
    decreases toks.len(),
{
    if toks.len() > 0 {
        if k == toks.len() - 1 {
        } else {
            assert(toks.drop_last()[k] == toks[k]);
            lemma_parse_args_prefix_none(toks.drop_last(), k);
        }
    }
}

/// Apply a parsed transform to a point, in fixed-point arithmetic.
/// A matrix computes both outputs from the untransformed inputs; the
/// translation offsets are divided by the viewBox scales as the source
/// coordinates themselves are.
pub open spec fn spec_apply_transform(t: Transform, x: int, y: int, w: int, h: int) -> (
    int,
    int,
) {
    match t {
        Transform::Identity => (x, y),
        Transform::Unsupported => (x, y),
        Transform::Matrix(a, b, c, d, e, f) => (
            fadd(fadd(fmul(x, a as int), fmul(y, c as int)), e as int),
            fadd(fadd(fmul(x, b as int), fmul(y, d as int)), f as int),
        ),
        Transform::Translate(tx, ty) => (
            fadd(x, fnorm(tx as int, w)),
            fadd(y, fnorm(ty as int, h)),
        ),
        Transform::Scale(sx, sy) => (fmul(x, sx as int), fmul(y, sy as int)),
        Transform::Rotate(ang) => {
            let rad = frad(ang as int);
            let c = spec_cos(rad);
            let s = spec_sin(rad);
            (fsub(fmul(x, c), fmul(y, s)), fadd(fmul(x, s), fmul(y, c)))
        },
        Transform::SkewX(ang) => (fadd(x, fmul(y, ftan(frad(ang as int)))), y),
        Transform::SkewY(ang) => (x, fadd(y, fmul(x, ftan(frad(ang as int))))),
    }
}

/// Apply a parsed transform to a point.
pub fn apply_transform(t: &Transform, x: i64, y: i64, w: i64, h: i64) -> (r: (i64, i64))
    requires
        w != 0,
        h != 0,
    ensures
        (r.0 as int, r.1 as int) == spec_apply_transform(*t, x as int, y as int, w as int, h as int),
{
    match t {
        Transform::Identity => (x, y),
        Transform::Unsupported => (x, y),
        Transform::Matrix(a, b, c, d, e, f) => {
            let nx: i64 = fx_add(fx_add(fx_mul(x, *a), fx_mul(y, *c)), *e);
            let ny: i64 = fx_add(fx_add(fx_mul(x, *b), fx_mul(y, *d)), *f);
            (nx, ny)
        },
        Transform::Translate(tx, ty) => {
            (fx_add(x, norm_coord(*tx, w)), fx_add(y, norm_coord(*ty, h)))
        },
        Transform::Scale(sx, sy) => (fx_mul(x, *sx), fx_mul(y, *sy)),
        Transform::Rotate(ang) => {
            let rad: i64 = deg_to_rad(*ang);
            let cv: i64 = cos_fx(rad);
            let sv: i64 = sin_fx(rad);
            (fx_sub(fx_mul(x, cv), fx_mul(y, sv)), fx_add(fx_mul(x, sv), fx_mul(y, cv)))
        },
        Transform::SkewX(ang) => {
            let tv: i64 = tan_fx(deg_to_rad(*ang));
            (fx_add(x, fx_mul(y, tv)), y)
        },
        Transform::SkewY(ang) => {
            let tv: i64 = tan_fx(deg_to_rad(*ang));
            (x, fx_add(y, fx_mul(x, tv)))
        },
    }
}

} // verus!
