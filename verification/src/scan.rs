//! Character-level scanning helpers shared by the tokenizer, the transform
//! parser, the viewBox reader and the document filters: finding a separator,
//! splitting on it, and prefix tests, each with an exact specification.

use vstd::prelude::*;

verus! {

/// Index of the first occurrence of `c` in `s`, or `s.len()` if absent.
pub open spec fn find_ch(s: Seq<char>, c: char) -> int
    decreases s.len(),
{
    if s.len() == 0 {
        0
    } else if s[0] == c {
        0
    } else {
        1 + find_ch(s.drop_first(), c)
    }
}

pub proof fn lemma_find_ch(s: Seq<char>, c: char)
    ensures
        0 <= find_ch(s, c) <= s.len(),
        find_ch(s, c) < s.len() ==> s[find_ch(s, c)] == c,
        forall|j: int| 0 <= j < find_ch(s, c) ==> s[j] != c,
    decreases s.len(),
{
    if s.len() != 0 && s[0] != c {
        lemma_find_ch(s.drop_first(), c);
        assert forall|j: int| 0 <= j < find_ch(s, c) implies s[j] != c by {
            if j > 0 {
                assert(s.drop_first()[j - 1] == s[j]);
            }
        }
    }
}

pub proof fn lemma_find_ch_at(s: Seq<char>, c: char, k: int)
    requires
        0 <= k <= s.len(),
        forall|j: int| 0 <= j < k ==> s[j] != c,
        k < s.len() ==> s[k] == c,
    ensures
        find_ch(s, c) == k,
{
    lemma_find_ch(s, c);
    let d = find_ch(s, c);
    if d < k {
        assert(s[d] != c);
    }
    if d > k {
        assert(k < s.len());
        assert(s[k] != c);
    }
}

/// Split `s` at every occurrence of `c`, keeping empty pieces: the
/// single-separator splitting used for path data and viewBox tokens.
pub open spec fn split_ch(s: Seq<char>, c: char) -> Seq<Seq<char>>
    decreases s.len(),
{
    let d = find_ch(s, c);
    if 0 <= d < s.len() {
        seq![s.take(d)] + split_ch(s.skip(d + 1), c)
    } else {
        seq![s]
    }
}

/// Does `p` occur at the start of `s`?
pub open spec fn has_prefix(s: Seq<char>, p: Seq<char>) -> bool {
    p.len() <= s.len() && (forall|i: int| 0 <= i < p.len() ==> s[i] == p[i])
}

/// A separator inside a transform argument list: a comma or a space.
pub open spec fn is_sep(c: char) -> bool {
    c == ' ' || c == ','
}

/// Index of the first separator in `s`, or `s.len()` if there is none.
pub open spec fn find_sep(s: Seq<char>) -> int
    decreases s.len(),
{
    if s.len() == 0 {
        0
    } else if is_sep(s[0]) {
        0
    } else {
        1 + find_sep(s.drop_first())
    }
}

pub proof fn lemma_find_sep(s: Seq<char>)
    ensures
        0 <= find_sep(s) <= s.len(),
        find_sep(s) < s.len() ==> is_sep(s[find_sep(s)]),
        forall|j: int| 0 <= j < find_sep(s) ==> !is_sep(s[j]),
    decreases s.len(),
{
    if s.len() != 0 && !is_sep(s[0]) {
        lemma_find_sep(s.drop_first());
        assert forall|j: int| 0 <= j < find_sep(s) implies !is_sep(s[j]) by {
            if j > 0 {
                assert(s.drop_first()[j - 1] == s[j]);
            }
        }
    }
}

pub proof fn lemma_find_sep_at(s: Seq<char>, k: int)
    requires
        0 <= k <= s.len(),
        forall|j: int| 0 <= j < k ==> !is_sep(s[j]),
        k < s.len() ==> is_sep(s[k]),
    ensures
        find_sep(s) == k,
{
    lemma_find_sep(s);
    let d = find_sep(s);
    if d < k {
        assert(!is_sep(s[d]));
    }
    if d > k {
        assert(k < s.len());
        assert(is_sep(s[k]));
    }
}

/// Split `s` on runs of separators, dropping empty pieces: the tolerant
/// argument-list grammar.
pub open spec fn split_seps(s: Seq<char>) -> Seq<Seq<char>>
    decreases s.len(),
{
    if s.len() == 0 {
        Seq::<Seq<char>>::empty()
    } else if is_sep(s[0]) {
        split_seps(s.drop_first())
    } else {
        let e = find_sep(s);
        if 1 <= e <= s.len() {
            seq![s.take(e)] + split_seps(s.skip(e))
        } else {
            seq![s]
        }
    }
}

/// Index of the first separator at or after `from`.
fn sep_run_end(s: &str, from: usize) -> (e: usize)
    requires
        from as int <= s@.len(),
    ensures
        from <= e <= s@.len(),
        forall|j: int| from <= j < e ==> !is_sep(#[trigger] s@[j]),
        (e as int) < s@.len() ==> is_sep(s@[e as int]),
    decreases s@.len() - from,
{
    if from < s.unicode_len() {
        let c: char = s.get_char(from);
        if c == ' ' || c == ',' {
            from
        } else {
            sep_run_end(s, from + 1)
        }
    } else {
        from
    }
}

/// Exec split on separator runs, dropping empty pieces.
#[verifier::loop_isolation(false)]
pub fn split_ws_comma(s: &str) -> (r: Vec<String>)
    ensures
        r.deep_view() == split_seps(s@),
{
    let n: usize = s.unicode_len();
    let mut out: Vec<String> = Vec::new();
    let mut i: usize = 0;
    proof {
        assert(s@.skip(0) =~= s@);
        assert(out.deep_view() =~= Seq::<Seq<char>>::empty());
        assert(Seq::<Seq<char>>::empty() + split_seps(s@) =~= split_seps(s@));
    }
    while i < n
        invariant
            0 <= i <= n,
            split_seps(s@) == out.deep_view() + split_seps(s@.skip(i as int)),
        decreases n - i,
    {
        let c: char = s.get_char(i);
        if c == ' ' || c == ',' {
            proof {
                assert(s@.skip(i as int)[0] == s@[i as int]);
                assert(s@.skip(i as int).drop_first() =~= s@.skip(i + 1));
            }
            i += 1;
        } else {
            let e: usize = sep_run_end(s, i);
            let tok: String = String::from_str(s.substring_char(i, e));
            let ghost old_dv = out.deep_view();
            out.push(tok);
            proof {
                let rest = s@.skip(i as int);
                assert forall|j: int| 0 <= j < e - i implies !is_sep(rest[j]) by {
                    assert(rest[j] == s@[j + i]);
                }
                if e < n {
                    assert(rest[e - i] == s@[e as int]);
                }
                lemma_find_sep_at(rest, e - i);
                assert(!is_sep(rest[0]));
                assert(e - i >= 1);
                assert(rest.take(e - i) =~= s@.subrange(i as int, e as int));
                assert(rest.skip(e - i) =~= s@.skip(e as int));
                assert(split_seps(rest) == seq![rest.take(e - i)] + split_seps(rest.skip(e - i)));
                assert(tok@ == rest.take(e - i));
                assert(out.deep_view() =~= old_dv.push(tok@));
                assert(old_dv + (seq![tok@] + split_seps(s@.skip(e as int))) =~= old_dv.push(tok@)
                    + split_seps(s@.skip(e as int)));
            }
            i = e;
        }
    }
    proof {
        assert(s@.skip(n as int) =~= Seq::<char>::empty());
        assert(split_seps(Seq::<char>::empty()) =~= Seq::<Seq<char>>::empty());
        assert(out.deep_view() + Seq::<Seq<char>>::empty() =~= out.deep_view());
    }
    out
}

/// Exec split on a single character, keeping empty pieces.
pub fn split_str(s: &str, c: char) -> (r: Vec<String>)
    ensures
        r.deep_view() == split_ch(s@, c),
        r.len() >= 1,
{
    let n: usize = s.unicode_len();
    let mut out: Vec<String> = Vec::new();
    let mut start: usize = 0;
    let mut i: usize = 0;
    proof {
        assert(s@.skip(0) =~= s@);
        assert(out.deep_view() =~= Seq::<Seq<char>>::empty());
        assert(Seq::<Seq<char>>::empty() + split_ch(s@, c) =~= split_ch(s@, c));
    }
    while i < n
        invariant
            n == s@.len(),
            start <= i <= n,
            forall|j: int| start <= j < i ==> s@[j] != c,
            split_ch(s@, c) == out.deep_view() + split_ch(s@.skip(start as int), c),
        decreases n - i,
    {
        if s.get_char(i) == c {
            let tok: String = String::from_str(s.substring_char(start, i));
            let ghost old_dv = out.deep_view();
            out.push(tok);
            proof {
                let rest = s@.skip(start as int);
                assert forall|j: int| 0 <= j < i - start implies rest[j] != c by {
                    assert(rest[j] == s@[start + j]);
                }
                assert(rest[i - start] == s@[i as int]);
                lemma_find_ch_at(rest, c, i - start);
                assert(rest.take(i - start) =~= s@.subrange(start as int, i as int));
                assert(rest.skip(i - start + 1) =~= s@.skip(i + 1));
                assert(tok@ == rest.take(i - start));
                assert(out.deep_view() =~= old_dv.push(tok@));
                assert(split_ch(rest, c) == seq![rest.take(i - start)] + split_ch(
                    rest.skip(i - start + 1),
                    c,
                ));
                assert(old_dv + (seq![tok@] + split_ch(s@.skip(i + 1), c)) =~= old_dv.push(tok@)
                    + split_ch(s@.skip(i + 1), c));
            }
            start = i + 1;
        }
        i += 1;
    }
    let last: String = String::from_str(s.substring_char(start, n));
    let ghost old_dv = out.deep_view();
    out.push(last);
    proof {
        let rest = s@.skip(start as int);
        assert forall|j: int| 0 <= j < rest.len() implies rest[j] != c by {
            assert(rest[j] == s@[start + j]);
        }
        lemma_find_ch_at(rest, c, rest.len() as int);
        assert(rest =~= s@.subrange(start as int, n as int));
        assert(last@ == rest);
        assert(split_ch(rest, c) == seq![rest]);
        assert(out.deep_view() =~= old_dv.push(last@));
        assert(old_dv + seq![last@] =~= old_dv.push(last@));
        assert(out.deep_view() == split_ch(s@, c));
    }
    out
}

/// Exec string equality over character views.
pub fn str_eq(a: &str, b: &str) -> (r: bool)
    ensures
        r == (a@ == b@),
{
    let n: usize = a.unicode_len();
    let m: usize = b.unicode_len();
    if n != m {
        return false;
    }
    let mut i: usize = 0;
    while i < n
        invariant
            n == a@.len(),
            n == b@.len(),
            0 <= i <= n,
            forall|j: int| 0 <= j < i ==> a@[j] == b@[j],
        decreases n - i,
    {
        if a.get_char(i) != b.get_char(i) {
            return false;
        }
        i += 1;
    }
    proof {
        assert(a@ =~= b@);
    }
    true
}

/// Exec prefix test.
pub fn str_has_prefix(s: &str, p: &str) -> (r: bool)
    ensures
        r == has_prefix(s@, p@),
{
    let n: usize = s.unicode_len();
    let m: usize = p.unicode_len();
    if m > n {
        return false;
    }
    let mut i: usize = 0;
    while i < m
        invariant
            n == s@.len(),
            m == p@.len(),
            m <= n,
            0 <= i <= m,
            forall|j: int| 0 <= j < i ==> s@[j] == p@[j],
        decreases m - i,
    {
        if s.get_char(i) != p.get_char(i) {
            return false;
        }
        i += 1;
    }
    true
}

} // verus!
