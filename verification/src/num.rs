//! Parsing decimal number tokens into fixed-point values.
//!
//! The accepted grammar is an optional sign, an integer part of at most
//! twelve digits and an optional fraction part, at least one digit in all.
//! Fraction digits beyond the fixed-point resolution are read for validity
//! but truncated toward zero.  Exponents and non-finite spellings are not
//! numbers here; a token outside the grammar parses to nothing.

use vstd::prelude::*;
use crate::fx::{fx_ok, SCALE};
use crate::scan::{find_ch, lemma_find_ch, lemma_find_ch_at};

verus! {

/// Most integer digits a number token may carry.
pub const MAX_INT_DIGITS: usize = 12;

pub open spec fn is_digit(c: char) -> bool {
    48 <= c as u32 <= 57
}

pub open spec fn digit_val(c: char) -> int {
    c as u32 - 48
}

pub open spec fn all_digits(s: Seq<char>) -> bool {
    forall|i: int| 0 <= i < s.len() ==> is_digit(#[trigger] s[i])
}

/// Value of a digit string, most significant digit first.
pub open spec fn digits_val(s: Seq<char>) -> int
    decreases s.len(),
{
    if s.len() == 0 {
        0
    } else {
        digits_val(s.drop_last()) * 10 + digit_val(s.last())
    }
}

pub open spec fn p10(e: int) -> int
    decreases e,
{
    if e <= 0 {
        1
    } else {
        10 * p10(e - 1)
    }
}

/// Value in millionths contributed by a fraction digit string.
pub open spec fn frac_val(s: Seq<char>) -> int {
    let m = if s.len() < 6 {
        s.len() as int
    } else {
        6
    };
    digits_val(s.take(m)) * p10(6 - m)
}

/// An unsigned number body `digits[.digits]`, in millionths.
pub open spec fn parse_body(s: Seq<char>) -> Option<int> {
    let d = find_ch(s, '.');
    let ip = s.take(d);
    let fp = if d < s.len() {
        s.skip(d + 1)
    } else {
        Seq::<char>::empty()
    };
    if all_digits(ip) && all_digits(fp) && ip.len() + fp.len() > 0 && ip.len()
        <= MAX_INT_DIGITS as int {
        Some(digits_val(ip) * (SCALE as int) + frac_val(fp))
    } else {
        None
    }
}

/// A signed number token, in millionths; `None` when outside the grammar.
pub open spec fn parse_fx(s: Seq<char>) -> Option<int> {
    if s.len() == 0 {
        None
    } else if s[0] == '-' {
        match parse_body(s.drop_first()) {
            Some(v) => Some(-v),
            None => None,
        }
    } else if s[0] == '+' {
        parse_body(s.drop_first())
    } else {
        parse_body(s)
    }
}

pub proof fn lemma_digits_val_bound(s: Seq<char>)
    requires
        all_digits(s),
    ensures
        0 <= digits_val(s) < p10(s.len() as int),
    decreases s.len(),
{
    if s.len() > 0 {
        assert(all_digits(s.drop_last())) by {
            assert(forall|i: int|
                0 <= i < s.len() - 1 ==> s.drop_last()[i] == #[trigger] s[i]);
        }
        lemma_digits_val_bound(s.drop_last());
        assert(is_digit(s.last()));
    }
}

pub proof fn lemma_p10_vals()
    ensures
        p10(6) == 1000000,
        p10(12) == 1000000000000,
{
    reveal_with_fuel(p10, 13);
}

pub proof fn lemma_p10_pos(a: int)
    ensures
        p10(a) >= 1,
    decreases a,
{
    if a > 0 {
        lemma_p10_pos(a - 1);
    }
}

pub proof fn lemma_p10_le(a: int, b: int)
    requires
        a <= b,
    ensures
        p10(a) <= p10(b),
        p10(a) >= 1,
    decreases b - a,
{
    lemma_p10_pos(a);
    if a < b {
        lemma_p10_le(a, b - 1);
    }
}

/// Any parsed number is well inside the saturation range.
pub proof fn lemma_parse_fx_ok(s: Seq<char>)
    ensures
        match parse_fx(s) {
            Some(v) => fx_ok(v) && -1000000000000000000 <= v <= 1000000000000000000,
            None => true,
        },
{
    lemma_parse_body_ok(s);
    if s.len() > 0 {
        lemma_parse_body_ok(s.drop_first());
    }
}

proof fn lemma_parse_body_ok(s: Seq<char>)
    ensures
        match parse_body(s) {
            Some(v) => 0 <= v <= 1000000000000000000,
            None => true,
        },
{
    if parse_body(s) is Some {
        let d = find_ch(s, '.');
        let ip = s.take(d);
        let fp = if d < s.len() {
            s.skip(d + 1)
        } else {
            Seq::<char>::empty()
        };
        lemma_digits_val_bound(ip);
        lemma_p10_le(ip.len() as int, 12);
        let m = if fp.len() < 6 {
            fp.len() as int
        } else {
            6
        };
        assert(all_digits(fp.take(m))) by {
            assert(forall|i: int| 0 <= i < m ==> fp.take(m)[i] == #[trigger] fp[i]);
        }
        lemma_digits_val_bound(fp.take(m));
        lemma_p10_le(m, 6);
        lemma_p10_le(6 - m, 6);
        assert(digits_val(fp.take(m)) * p10(6 - m) < p10(m) * p10(6 - m)) by (nonlinear_arith)
            requires
                0 <= digits_val(fp.take(m)) < p10(m),
                p10(6 - m) >= 1,
        ;
        assert(p10(m) * p10(6 - m) == p10(6)) by {
            lemma_p10_mul(m, 6 - m);
        }
        assert(digits_val(ip) * (SCALE as int) <= (p10(12) - 1) * (SCALE as int))
            by (nonlinear_arith)
            requires
                0 <= digits_val(ip) <= p10(12) - 1,
                SCALE as int >= 1,
        ;
        lemma_p10_vals();
        lemma_p10_vals();
    }
}

proof fn lemma_p10_mul(a: int, b: int)
    requires
        a >= 0,
        b >= 0,
    ensures
        p10(a) * p10(b) == p10(a + b),
    decreases a,
{
    if a == 0 {
    } else {
        lemma_p10_mul(a - 1, b);
        assert(p10(a) * p10(b) == 10 * (p10(a - 1) * p10(b))) by (nonlinear_arith)
            requires
                p10(a) == 10 * p10(a - 1),
        ;
    }
}

/// Index of the first position at or after `from` that is not a digit.
fn digit_run_end(s: &str, from: usize) -> (e: usize)
    requires
        from as int <= s@.len(),
    ensures
        from <= e <= s@.len(),
        forall|j: int| from <= j < e ==> is_digit(#[trigger] s@[j]),
        (e as int) < s@.len() ==> !is_digit(s@[e as int]),
    decreases s@.len() - from,
{
    if from < s.unicode_len() {
        let u: u32 = s.get_char(from) as u32;
        if 48 <= u && u <= 57 {
            digit_run_end(s, from + 1)
        } else {
            from
        }
    } else {
        from
    }
}

/// Parse a number token into fixed-point millionths.
#[verifier::rlimit(100)]
#[verifier::loop_isolation(false)]
pub fn parse_fixed(s: &str) -> (r: Option<i64>)
    ensures
        match r {
            Some(v) => parse_fx(s@) == Some(v as int) && fx_ok(v as int),
            None => parse_fx(s@) is None,
        },
{
    let n: usize = s.unicode_len();
    if n == 0 {
        return None;
    }
    let c0: char = s.get_char(0);
    let neg: bool = c0 == '-';
    let off: usize = if c0 == '-' || c0 == '+' {
        1
    } else {
        0
    };
    let ghost body: Seq<char> = if off == 1 {
        s@.drop_first()
    } else {
        s@
    };
    proof {
        assert(forall|k: int| 0 <= k < body.len() ==> body[k] == s@[k + off]);
        lemma_parse_fx_ok(s@);
    }
    if off >= n {
        // a bare sign with nothing after it
        proof {
            assert(body.len() == 0);
            assert(body.take(find_ch(body, '.')).len() + 0 == 0);
            assert(parse_body(body) is None);
        }
        return None;
    }
    let e1: usize = digit_run_end(s, off);
    if e1 - off > MAX_INT_DIGITS {
        // a thirteenth integer digit: out of range for this machine
        proof {
            lemma_int_part_long(body, s@, off as int, off + MAX_INT_DIGITS as int);
            assert(parse_fx(s@) is None);
        }
        return None;
    }
    // integer part value
    let mut acc: i64 = 0;
    let mut i: usize = off;
    proof {
        assert(s@.subrange(off as int, off as int) =~= Seq::<char>::empty());
    }
    while i < e1
        invariant
            off <= i <= e1,
            acc as int == digits_val(s@.subrange(off as int, i as int)),
            0 <= (acc as int) && (acc as int) < p10(i - off),
        decreases e1 - i,
    {
        proof {
            let pre = s@.subrange(off as int, i as int);
            let post = s@.subrange(off as int, i + 1);
            assert(post.drop_last() =~= pre);
            assert(post.last() == s@[i as int]);
            lemma_p10_le(i - off + 1, 12);
            lemma_p10_vals();
        }
        let u: u32 = s.get_char(i) as u32;
        acc = acc * 10 + ((u - 48) as i64);
        i += 1;
    }
    let ghost d = e1 - off;
    let ghost ip = s@.subrange(off as int, e1 as int);
    // fraction part value
    let mut facc: i64 = 0;
    let mut flen: usize = 0;
    let saw_dot: bool = e1 < n;
    if e1 < n {
        if s.get_char(e1) != '.' {
            // neither a digit (the run ended) nor the separator
            proof {
                lemma_int_part_bad(body, s@, off as int, e1 as int, n as int);
                assert(parse_fx(s@) is None);
            }
            return None;
        }
        proof {
            assert forall|k: int| 0 <= k < d implies body[k] != '.' by {
                assert(body[k] == s@[k + off]);
                assert(is_digit(s@[k + off]));
            }
            assert(body[d] == s@[e1 as int]);
            lemma_find_ch_at(body, '.', d);
        }
        let ghost fp = body.skip(d + 1);
        proof {
            assert(fp =~= s@.skip(e1 + 1));
        }
        let fe: usize = digit_run_end(s, e1 + 1);
        if fe < n {
            // a stray character inside the fraction part
            proof {
                assert(fp[fe - e1 - 1] == s@[fe as int]);
                assert(!is_digit(fp[fe - e1 - 1]));
                assert(!all_digits(fp));
                assert(parse_body(body) is None);
                assert(parse_fx(s@) is None);
            }
            return None;
        }
        flen = n - e1 - 1;
        proof {
            assert forall|k: int| 0 <= k < fp.len() implies is_digit(#[trigger] fp[k]) by {
                assert(fp[k] == s@[k + e1 + 1]);
            }
            assert(fp.take(0) =~= Seq::<char>::empty());
        }
        let fm: usize = if flen < 6 {
            flen
        } else {
            6
        };
        let mut j: usize = 0;
        while j < fm
            invariant
                0 <= j <= fm,
                facc as int == digits_val(fp.take(j as int)),
                0 <= (facc as int) && (facc as int) < p10(j as int),
            decreases fm - j,
        {
            proof {
                let pre = fp.take(j as int);
                let post = fp.take(j + 1);
                assert(post.drop_last() =~= pre);
                assert(post.last() == fp[j as int]);
                assert(fp[j as int] == s@[e1 + 1 + j]);
                lemma_p10_le(j + 1, 6);
                lemma_p10_vals();
            }
            let u2: u32 = s.get_char(e1 + 1 + j) as u32;
            facc = facc * 10 + ((u2 - 48) as i64);
            j += 1;
        }
    } else {
        proof {
            assert forall|k: int| 0 <= k < body.len() implies body[k] != '.' by {
                assert(body[k] == s@[k + off]);
                assert(is_digit(s@[k + off]));
            }
            lemma_find_ch_at(body, '.', body.len() as int);
        }
    }
    if e1 == off && flen == 0 {
        // no digit anywhere
        proof {
            assert(parse_body(body) is None);
        }
        return None;
    }
    let scale_rest: i64 = pow10_small(if flen < 6 {
        (6 - flen) as u32
    } else {
        0
    });
    let ghost m: int = if flen < 6 {
        flen as int
    } else {
        6
    };
    proof {
        lemma_body_value(body, s@, off as int, e1 as int, saw_dot, n as int);
        assert(ip =~= body.take(d));
        lemma_digits_val_bound(ip);
        lemma_p10_le(d, 12);
        lemma_p10_vals();
        assert((acc as int) * (SCALE as int) <= 999999999999000000) by (nonlinear_arith)
            requires
                0 <= acc as int <= 999999999999,
                SCALE == 1000000i64,
        ;
        lemma_p10_mul(m, 6 - m);
        lemma_p10_vals();
        assert((facc as int) * (scale_rest as int) < 1000000) by (nonlinear_arith)
            requires
                0 <= facc as int,
                (facc as int) < p10(m),
                1 <= scale_rest as int,
                scale_rest as int == p10(6 - m),
                p10(m) * p10(6 - m) == 1000000,
        ;
        assert((acc as int) * (SCALE as int) >= 0) by (nonlinear_arith)
            requires
                0 <= acc as int,
                SCALE == 1000000i64,
        ;
        assert((facc as int) * (scale_rest as int) >= 0) by (nonlinear_arith)
            requires
                0 <= facc as int,
                1 <= scale_rest as int,
        ;
    }
    let magnitude: i64 = acc * SCALE + facc * scale_rest;
    proof {
        let bv = parse_body(body);
        if saw_dot {
            let fp = body.skip(d + 1);
            assert(fp.len() == flen as int);
            assert(facc as int == digits_val(fp.take(m)));
            assert(bv == Some(digits_val(ip) * (SCALE as int) + frac_val(fp)));
            assert(frac_val(fp) == digits_val(fp.take(m)) * p10(6 - m));
            assert(magnitude as int == digits_val(ip) * (SCALE as int) + frac_val(fp));
        } else {
            let fp = Seq::<char>::empty();
            assert(fp.take(0) =~= fp);
            assert(frac_val(fp) == 0) by {
                assert(digits_val(fp.take(0)) == 0);
                assert(digits_val(fp.take(0)) * p10(6) == 0) by (nonlinear_arith)
                    requires
                        digits_val(fp.take(0)) == 0,
                ;
            }
            assert(flen == 0);
            assert(facc as int == 0);
            assert((facc as int) * (scale_rest as int) == 0) by (nonlinear_arith)
                requires
                    facc as int == 0,
            ;
            assert(bv == Some(digits_val(ip) * (SCALE as int) + frac_val(fp)));
            assert(magnitude as int == digits_val(ip) * (SCALE as int) + frac_val(fp));
        }
        assert(bv == Some(magnitude as int));
    }
    if neg {
        Some(-magnitude)
    } else {
        Some(magnitude)
    }
}

/// Ten to a small power.
fn pow10_small(e: u32) -> (r: i64)
    requires
        e <= 6,
    ensures
        r as int == p10(e as int),
        1 <= r <= 1000000,
{
    let mut r: i64 = 1;
    let mut k: u32 = 0;
    while k < e
        invariant
            k <= e <= 6,
            r as int == p10(k as int),
            1 <= r as int <= p10(k as int),
            r <= 1000000,
        decreases e - k,
    {
        proof {
            lemma_p10_le(k as int + 1, 6);
            lemma_p10_vals();
        }
        r = r * 10;
        k += 1;
    }
    r
}

proof fn lemma_int_part_long(body: Seq<char>, s: Seq<char>, off: int, i: int)
    requires
        0 <= off <= i < s.len(),
        body.len() == s.len() - off,
        forall|k: int| 0 <= k < body.len() ==> body[k] == s[k + off],
        forall|j: int| off <= j < i ==> is_digit(#[trigger] s[j]),
        is_digit(s[i]),
        i - off >= MAX_INT_DIGITS,
    ensures
        parse_body(body) is None,
{
    lemma_find_ch(body, '.');
    let d = find_ch(body, '.');
    if d <= i - off {
        if d < i - off {
            assert(body[d] == s[d + off]);
            assert(is_digit(s[d + off]));
            assert(body[d] == '.');
            assert(false);
        } else {
            if d < body.len() {
                assert(body[d] == s[i]);
                assert(is_digit(s[i]) && body[d] == '.');
                assert(false);
            }
        }
    }
    assert(body.take(d).len() > MAX_INT_DIGITS as int);
}

proof fn lemma_int_part_bad(body: Seq<char>, s: Seq<char>, off: int, i: int, n: int)
    requires
        0 <= off <= i < n,
        s.len() == n,
        body.len() == n - off,
        forall|k: int| 0 <= k < body.len() ==> body[k] == s[k + off],
        forall|j: int| off <= j < i ==> is_digit(#[trigger] s[j]),
        !is_digit(s[i]),
        s[i] != '.',
    ensures
        parse_body(body) is None,
{
    lemma_find_ch(body, '.');
    let d = find_ch(body, '.');
    if d <= i - off {
        if d < body.len() {
            assert(body[d] == s[d + off]);
            if d < i - off {
                assert(is_digit(s[d + off]) && body[d] == '.');
            } else {
                assert(body[d] == s[i]);
            }
            assert(false);
        }
        assert(false);
    }
    assert(body.take(d)[i - off] == s[i]);
    assert(!all_digits(body.take(d)));
}

proof fn lemma_body_value(body: Seq<char>, s: Seq<char>, off: int, i: int, saw_dot: bool, n: int)
    requires
        s.len() == n,
        0 <= off <= i <= n,
        body.len() == n - off,
        forall|k: int| 0 <= k < body.len() ==> body[k] == s[k + off],
        forall|j: int| off <= j < i ==> is_digit(#[trigger] s[j]),
        saw_dot ==> i < n && find_ch(body, '.') == i - off,
        !saw_dot ==> i == n && find_ch(body, '.') == body.len(),
        saw_dot ==> all_digits(s.skip(i + 1)),
        i - off <= MAX_INT_DIGITS,
        i - off + (if saw_dot {
            n - i - 1
        } else {
            0
        }) > 0,
    ensures
        parse_body(body) is Some,
        body.take(find_ch(body, '.')) =~= s.subrange(off, i),
        saw_dot ==> body.skip(find_ch(body, '.') + 1) =~= s.skip(i + 1),
{
    let d = find_ch(body, '.');
    let ip = body.take(d);
    assert(ip =~= s.subrange(off, i));
    assert(all_digits(ip)) by {
        assert(forall|k: int| 0 <= k < ip.len() ==> ip[k] == #[trigger] s[k + off]);
    }
    if saw_dot {
        assert(body.skip(d + 1) =~= s.skip(i + 1));
    }
}

} // verus!
