//! The keyed store of drawable markup: named lists of element lines, plus
//! the per-file digests used to notice when a source file changed.
//!
//! Entries live in an association list with unique keys, replaced in place
//! on re-insertion, so iteration order is insertion order and nothing can
//! overwrite a neighbouring slot.  Change detection compares the outside
//! base64 digest of the new text against the stored one.

use vstd::prelude::*;
use base64::Engine;
use crate::scan::{has_prefix, split_ch, split_str, str_eq, str_has_prefix};

verus! {

/// The digest of a text, as the outside encoder computes it: a function
/// of the text alone.
pub uninterp spec fn base64_of(s: Seq<char>) -> Seq<char>;

/// Relies on base64's standard no-padding engine: the digest of the
/// text's bytes, deterministic in the text alone.
#[verifier::external_body]
fn encode_base64(s: &str) -> (r: String)
    ensures
        r@ == base64_of(s@),
{
    base64::engine::general_purpose::STANDARD_NO_PAD.encode(s.as_bytes())
}

/// First index holding this key in an association list, or its length.
pub open spec fn find_assoc<V>(s: Seq<(Seq<char>, V)>, key: Seq<char>) -> int
    decreases s.len(),
{
    if s.len() == 0 {
        0
    } else if s[0].0 == key {
        0
    } else {
        1 + find_assoc(s.drop_first(), key)
    }
}

pub proof fn lemma_find_assoc<V>(s: Seq<(Seq<char>, V)>, key: Seq<char>)
    ensures
        0 <= find_assoc(s, key) <= s.len(),
        find_assoc(s, key) < s.len() ==> s[find_assoc(s, key)].0 == key,
        forall|j: int| 0 <= j < find_assoc(s, key) ==> s[j].0 != key,
    decreases s.len(),
{
    if s.len() != 0 && s[0].0 != key {
        lemma_find_assoc(s.drop_first(), key);
        assert forall|j: int| 0 <= j < find_assoc(s, key) implies s[j].0 != key by {
            if j > 0 {
                assert(s.drop_first()[j - 1] == s[j]);
            }
        }
    }
}

/// The value stored under a key, if any.
pub open spec fn assoc_get<V>(s: Seq<(Seq<char>, V)>, key: Seq<char>) -> Option<V> {
    let i = find_assoc(s, key);
    if i < s.len() {
        Some(s[i].1)
    } else {
        None
    }
}

/// The list after inserting or replacing a key's value.
pub open spec fn assoc_put<V>(s: Seq<(Seq<char>, V)>, key: Seq<char>, v: V) -> Seq<
    (Seq<char>, V),
> {
    let i = find_assoc(s, key);
    if i < s.len() {
        s.update(i, (key, v))
    } else {
        s.push((key, v))
    }
}

/// The list after removing a key, if present.
pub open spec fn assoc_drop<V>(s: Seq<(Seq<char>, V)>, key: Seq<char>) -> Seq<(Seq<char>, V)> {
    let i = find_assoc(s, key);
    if i < s.len() {
        s.remove(i)
    } else {
        s
    }
}

/// No key occurs twice.
pub open spec fn unique_keys<V>(s: Seq<(Seq<char>, V)>) -> bool {
    forall|i: int, j: int| 0 <= i < j < s.len() ==> (#[trigger] s[i].0) != (#[trigger] s[j].0)
}

/// A line of markup that the store keeps: a drawable element start.
pub open spec fn drawable(l: Seq<char>) -> bool {
    has_prefix(l, "<path"@) || has_prefix(l, "<rect"@) || has_prefix(l, "<line"@)
}

/// The drawable lines of a text, in order.
pub open spec fn filter_drawable(ls: Seq<Seq<char>>) -> Seq<Seq<char>>
    decreases ls.len(),
{
    if ls.len() == 0 {
        Seq::<Seq<char>>::empty()
    } else if drawable(ls[0]) {
        seq![ls[0]] + filter_drawable(ls.drop_first())
    } else {
        filter_drawable(ls.drop_first())
    }
}

/// A file name with its `.svg` suffix removed; other names stay whole.
pub open spec fn strip_svg(s: Seq<char>) -> Seq<char> {
    if s.len() >= 4 && s[s.len() - 4] == '.' && s[s.len() - 3] == 's' && s[s.len() - 2] == 'v'
        && s[s.len() - 1] == 'g' {
        s.subrange(0, s.len() - 4)
    } else {
        s
    }
}

/// Collect the drawable element lines of a document text.
#[verifier::loop_isolation(false)]
pub fn drawable_lines(contents: &str) -> (r: Vec<String>)
    ensures
        r.deep_view() == filter_drawable(split_ch(contents@, '\n')),
{
    let lines: Vec<String> = split_str(contents, '\n');
    let ghost dv = lines.deep_view();
    let n: usize = lines.len();
    let mut out: Vec<String> = Vec::new();
    let mut i: usize = 0;
    proof {
        assert(dv.skip(0) =~= dv);
        assert(out.deep_view() + filter_drawable(dv) =~= filter_drawable(dv));
    }
    while i < n
        invariant
            0 <= i <= n,
            n == dv.len(),
            filter_drawable(dv) == out.deep_view() + filter_drawable(dv.skip(i as int)),
        decreases n - i,
    {
        let l: &String = &lines[i];
        proof {
            assert(dv.skip(i as int)[0] == dv[i as int]);
            assert(dv[i as int] == l@);
            assert(dv.skip(i as int).drop_first() =~= dv.skip(i + 1));
        }
        let keep: bool = str_has_prefix(l.as_str(), "<path") || str_has_prefix(l.as_str(), "<rect")
            || str_has_prefix(l.as_str(), "<line");
        if keep {
            let ghost old_dv = out.deep_view();
            out.push(l.clone());
            proof {
                assert(out.deep_view() =~= old_dv.push(l@));
                assert(old_dv + (seq![l@] + filter_drawable(dv.skip(i + 1))) =~= old_dv.push(l@)
                    + filter_drawable(dv.skip(i + 1)));
            }
        }
        i += 1;
    }
    proof {
        assert(dv.skip(n as int) =~= Seq::<Seq<char>>::empty());
        assert(out.deep_view() + Seq::<Seq<char>>::empty() =~= out.deep_view());
    }
    out
}

/// Strip a `.svg` suffix from a file name.
fn strip_svg_suffix(s: &str) -> (r: String)
    ensures
        r@ == strip_svg(s@),
{
    let n: usize = s.unicode_len();
    if n >= 4 && s.get_char(n - 4) == '.' && s.get_char(n - 3) == 's' && s.get_char(n - 2) == 'v'
        && s.get_char(n - 1) == 'g' {
        let head: &str = s.substring_char(0, n - 4);
        String::from_str(head)
    } else {
        String::from_str(s)
    }
}

/// Lexicographic order on character sequences, by code point.
pub open spec fn lex_lt(a: Seq<char>, b: Seq<char>) -> bool
    decreases a.len(),
{
    if b.len() == 0 {
        false
    } else if a.len() == 0 {
        true
    } else if a[0] != b[0] {
        (a[0] as u32) < (b[0] as u32)
    } else {
        lex_lt(a.drop_first(), b.drop_first())
    }
}

/// The order is strict: no two texts are below each other at once.
pub proof fn lemma_lex_asym(a: Seq<char>, b: Seq<char>)
    ensures
        !(lex_lt(a, b) && lex_lt(b, a)),
    decreases a.len(),
{
    if a.len() != 0 && b.len() != 0 && a[0] == b[0] {
        lemma_lex_asym(a.drop_first(), b.drop_first());
    }
}

/// Adjacent-sorted in the lexicographic order.
pub open spec fn sorted_lex(ss: Seq<Seq<char>>) -> bool {
    forall|i: int|
        0 <= i && i + 1 < ss.len() ==> !lex_lt(#[trigger] ss[i + 1], ss[i])
}

/// Exec lexicographic comparison.
fn str_lt(a: &str, b: &str) -> (r: bool)
    ensures
        r == lex_lt(a@, b@),
{
    let n: usize = a.unicode_len();
    let m: usize = b.unicode_len();
    let mut i: usize = 0;
    proof {
        assert(a@.skip(0) =~= a@);
        assert(b@.skip(0) =~= b@);
    }
    while i < n && i < m
        invariant
            n == a@.len(),
            m == b@.len(),
            0 <= i <= n,
            i <= m,
            forall|j: int| 0 <= j < i ==> a@[j] == b@[j],
            lex_lt(a@, b@) == lex_lt(a@.skip(i as int), b@.skip(i as int)),
        decreases n - i,
    {
        let ca: char = a.get_char(i);
        let cb: char = b.get_char(i);
        proof {
            assert(a@.skip(i as int)[0] == a@[i as int]);
            assert(b@.skip(i as int)[0] == b@[i as int]);
            assert(a@.skip(i as int).drop_first() =~= a@.skip(i + 1));
            assert(b@.skip(i as int).drop_first() =~= b@.skip(i + 1));
        }
        if ca != cb {
            return (ca as u32) < (cb as u32);
        }
        i += 1;
    }
    proof {
        if i >= n {
            assert(a@.skip(i as int).len() == 0);
        } else {
            assert(b@.skip(i as int).len() == 0);
            assert(a@.skip(i as int).len() > 0);
        }
    }
    n < m
}

/// The keyed store of markup lines and per-file digests.
#[derive(Clone)]
pub struct Svg {
    svgs: Vec<(String, Vec<String>)>,
    files: Vec<(String, String)>,
}

impl Svg {
    /// The shape entries, keyed by name, as the contracts see them.
    pub closed spec fn entries(&self) -> Seq<(Seq<char>, Seq<Seq<char>>)> {
        self.svgs@.map_values(|p: (String, Vec<String>)| (p.0@, p.1.deep_view()))
    }

    /// The file digests, keyed by file name.
    pub closed spec fn file_entries(&self) -> Seq<(Seq<char>, Seq<char>)> {
        self.files@.map_values(|p: (String, String)| (p.0@, p.1@))
    }

    /// Both association lists keep their keys unique.
    pub closed spec fn wf(&self) -> bool {
        unique_keys(self.entries()) && unique_keys(self.file_entries())
    }

    /// An empty store.
    pub fn new() -> (s: Svg)
        ensures
            s.wf(),
            s.entries() == Seq::<(Seq<char>, Seq<Seq<char>>)>::empty(),
            s.file_entries() == Seq::<(Seq<char>, Seq<char>)>::empty(),
    {
        let s = Svg { svgs: Vec::new(), files: Vec::new() };
        proof {
            assert(s.entries() =~= Seq::<(Seq<char>, Seq<Seq<char>>)>::empty());
            assert(s.file_entries() =~= Seq::<(Seq<char>, Seq<char>)>::empty());
        }
        s
    }

    /// How many shapes are stored.
    pub fn len(self) -> (n: usize)
        ensures
            n == self.entries().len(),
    {
        self.svgs.len()
    }

    /// The markup lines stored under a name.
    pub fn get(self, key: &str) -> (r: Option<Vec<String>>)
        ensures
            match r {
                Some(v) => assoc_get(self.entries(), key@) == Some(v.deep_view()),
                None => assoc_get(self.entries(), key@) is None,
            },
    {
        let i: usize = self.find_svg(key);
        if i < self.svgs.len() {
            Some(clone_lines(&self.svgs[i].1))
        } else {
            None
        }
    }

    /// Index of a shape key, or the entry count.
    fn find_svg(&self, key: &str) -> (i: usize)
        ensures
            i as int == find_assoc(self.entries(), key@),
            i <= self.svgs.len(),
    {
        let n: usize = self.svgs.len();
        let mut i: usize = 0;
        proof {
            assert(self.entries().skip(0) =~= self.entries());
        }
        while i < n
            invariant
                0 <= i <= n,
                n == self.svgs.len(),
                find_assoc(self.entries(), key@) == i + find_assoc(
                    self.entries().skip(i as int),
                    key@,
                ),
                forall|j: int| 0 <= j < i ==> (#[trigger] self.entries()[j]).0 != key@,
            decreases n - i,
        {
            let k: &String = &self.svgs[i].0;
            proof {
                assert(self.entries().skip(i as int)[0] == self.entries()[i as int]);
                assert(self.entries()[i as int].0 == k@);
                assert(self.entries().skip(i as int).drop_first() =~= self.entries().skip(i + 1));
            }
            if str_eq(k.as_str(), key) {
                return i;
            }
            i += 1;
        }
        proof {
            assert(self.entries().skip(n as int).len() == 0);
        }
        n
    }

    /// Index of a file key, or the file count.
    fn find_file(&self, key: &str) -> (i: usize)
        ensures
            i as int == find_assoc(self.file_entries(), key@),
            i <= self.files.len(),
    {
        let n: usize = self.files.len();
        let mut i: usize = 0;
        proof {
            assert(self.file_entries().skip(0) =~= self.file_entries());
        }
        while i < n
            invariant
                0 <= i <= n,
                n == self.files.len(),
                find_assoc(self.file_entries(), key@) == i + find_assoc(
                    self.file_entries().skip(i as int),
                    key@,
                ),
            decreases n - i,
        {
            let k: &String = &self.files[i].0;
            proof {
                assert(self.file_entries().skip(i as int)[0] == self.file_entries()[i as int]);
                assert(self.file_entries()[i as int].0 == k@);
                assert(self.file_entries().skip(i as int).drop_first() =~= self.file_entries().skip(
                    i + 1,
                ));
            }
            if str_eq(k.as_str(), key) {
                return i;
            }
            i += 1;
        }
        proof {
            assert(self.file_entries().skip(n as int).len() == 0);
        }
        n
    }

    /// Store markup lines under a name, replacing any previous entry.
    pub fn add(&mut self, key: String, svg_vec: Vec<String>) -> (r: &Svg)
        requires
            old(self).wf(),
        ensures
            final(self).wf(),
            final(self).entries() == assoc_put(old(self).entries(), key@, svg_vec.deep_view()),
            final(self).file_entries() == old(self).file_entries(),
            r == *final(self),
    {
        let ghost oldv = self.entries();
        let i: usize = self.find_svg(key.as_str());
        proof {
            lemma_find_assoc(oldv, key@);
        }
        if i < self.svgs.len() {
            self.svgs.remove(i);
            self.svgs.insert(i, (key, svg_vec));
            proof {
                assert(self.entries() =~= assoc_put(oldv, key@, svg_vec.deep_view()));
                lemma_put_unique(oldv, key@, svg_vec.deep_view());
            }
        } else {
            self.svgs.push((key, svg_vec));
            proof {
                assert(self.entries() =~= assoc_put(oldv, key@, svg_vec.deep_view()));
                lemma_put_unique(oldv, key@, svg_vec.deep_view());
            }
        }
        self
    }

    /// Remove the entry under a name, if there is one.
    pub fn remove(&mut self, key: &str) -> (r: &Svg)
        requires
            old(self).wf(),
        ensures
            final(self).wf(),
            final(self).entries() == assoc_drop(old(self).entries(), key@),
            final(self).file_entries() == old(self).file_entries(),
            r == *final(self),
    {
        let ghost oldv = self.entries();
        let i: usize = self.find_svg(key);
        proof {
            lemma_find_assoc(oldv, key@);
        }
        if i < self.svgs.len() {
            self.svgs.remove(i);
            proof {
                assert(self.entries() =~= assoc_drop(oldv, key@));
                lemma_drop_unique(oldv, key@);
            }
        } else {
            proof {
                assert(self.entries() =~= assoc_drop(oldv, key@));
            }
        }
        self
    }

    /// Remember a file's digest, replacing any previous one.
    pub fn import(&mut self, file: String, encoded: String) -> (r: &Svg)
        requires
            old(self).wf(),
        ensures
            final(self).wf(),
            final(self).file_entries() == assoc_put(old(self).file_entries(), file@, encoded@),
            final(self).entries() == old(self).entries(),
            r == *final(self),
    {
        let ghost oldv = self.file_entries();
        let i: usize = self.find_file(file.as_str());
        proof {
            lemma_find_assoc(oldv, file@);
        }
        if i < self.files.len() {
            self.files.remove(i);
            self.files.insert(i, (file, encoded));
            proof {
                assert(self.file_entries() =~= assoc_put(oldv, file@, encoded@));
                lemma_put_unique(oldv, file@, encoded@);
            }
        } else {
            self.files.push((file, encoded));
            proof {
                assert(self.file_entries() =~= assoc_put(oldv, file@, encoded@));
                lemma_put_unique(oldv, file@, encoded@);
            }
        }
        self
    }

    /// The stored names, in ascending lexicographic order.
    pub fn keys(&self) -> (r: Vec<String>)
        ensures
            sorted_lex(r.deep_view()),
            r.deep_view().to_multiset() == self.entries().map_values(
                |p: (Seq<char>, Seq<Seq<char>>)| p.0,
            ).to_multiset(),
    {
        let ghost keysv = self.entries().map_values(|p: (Seq<char>, Seq<Seq<char>>)| p.0);
        let n: usize = self.svgs.len();
        let mut out: Vec<String> = Vec::new();
        let mut i: usize = 0;
        proof {
            assert(out.deep_view() =~= keysv.take(0));
        }
        while i < n
            invariant
                0 <= i <= n,
                n == self.svgs.len(),
                keysv == self.entries().map_values(|p: (Seq<char>, Seq<Seq<char>>)| p.0),
                sorted_lex(out.deep_view()),
                out.deep_view().to_multiset() == keysv.take(i as int).to_multiset(),
            decreases n - i,
        {
            let k: String = self.svgs[i].0.clone();
            proof {
                broadcast use vstd::seq_lib::group_to_multiset_ensures;

                assert(keysv[i as int] == self.entries()[i as int].0);
                assert(keysv.take(i + 1) =~= keysv.take(i as int).push(keysv[i as int]));
            }
            sorted_insert(&mut out, k);
            i += 1;
        }
        proof {
            assert(keysv.take(n as int) =~= keysv);
        }
        out
    }

    /// A borrowed view of the whole store, keyed by name.
    pub fn as_hashmap(&self) -> (r: &Vec<(String, Vec<String>)>)
        ensures
            r@.map_values(|p: (String, Vec<String>)| (p.0@, p.1.deep_view())) == self.entries(),
    {
        &self.svgs
    }

    /// Store a file's drawable lines and digest, unconditionally: the
    /// first load of an imported file.
    pub fn load_file(&mut self, file: &str, contents: &str)
        requires
            old(self).wf(),
        ensures
            final(self).wf(),
            final(self).entries() == assoc_put(
                old(self).entries(),
                strip_svg(file@),
                filter_drawable(split_ch(contents@, '\n')),
            ),
            final(self).file_entries() == assoc_put(
                old(self).file_entries(),
                file@,
                base64_of(contents@),
            ),
    {
        let lines: Vec<String> = drawable_lines(contents);
        let key: String = strip_svg_suffix(file);
        let enc: String = encode_base64(contents);
        self.add(key, lines);
        self.import(String::from_str(file), enc);
    }

    /// Reload a file only when its digest changed; says whether it did.
    pub fn refresh(&mut self, file: &str, contents: &str) -> (changed: bool)
        requires
            old(self).wf(),
        ensures
            final(self).wf(),
            changed == (match assoc_get(old(self).file_entries(), file@) {
                Some(enc) => enc != base64_of(contents@),
                None => false,
            }),
            changed ==> final(self).entries() == assoc_put(
                old(self).entries(),
                strip_svg(file@),
                filter_drawable(split_ch(contents@, '\n')),
            ) && final(self).file_entries() == assoc_put(
                old(self).file_entries(),
                file@,
                base64_of(contents@),
            ),
            !changed ==> *final(self) == *old(self),
    {
        let i: usize = self.find_file(file);
        proof {
            lemma_find_assoc(self.file_entries(), file@);
        }
        if i >= self.files.len() {
            return false;
        }
        let enc: String = encode_base64(contents);
        let same: bool = str_eq(self.files[i].1.as_str(), enc.as_str());
        if same {
            proof {
                assert(self.file_entries()[i as int].1 == base64_of(contents@));
            }
            false
        } else {
            self.load_file(file, contents);
            true
        }
    }
}

impl Default for Svg {
    /// An empty store.
    fn default() -> (s: Svg)
        ensures
            s.wf(),
            s.entries() == Seq::<(Seq<char>, Seq<Seq<char>>)>::empty(),
            s.file_entries() == Seq::<(Seq<char>, Seq<char>)>::empty(),
    {
        Svg::new()
    }
}

/// Copy a list of markup lines.
fn clone_lines(v: &Vec<String>) -> (r: Vec<String>)
    ensures
        r.deep_view() == v.deep_view(),
{
    let n: usize = v.len();
    let mut r: Vec<String> = Vec::new();
    let mut i: usize = 0;
    proof {
        assert(r.deep_view() =~= v.deep_view().take(0));
    }
    while i < n
        invariant
            0 <= i <= n,
            n == v.len(),
            r.deep_view() == v.deep_view().take(i as int),
        decreases n - i,
    {
        let s: String = v[i].clone();
        let ghost old_dv = r.deep_view();
        r.push(s);
        proof {
            assert(r.deep_view() =~= old_dv.push(s@));
            assert(v.deep_view().take(i + 1) =~= v.deep_view().take(i as int).push(
                v.deep_view()[i as int],
            ));
            assert(v.deep_view()[i as int] == v@[i as int]@);
        }
        i += 1;
    }
    proof {
        assert(v.deep_view().take(n as int) =~= v.deep_view());
    }
    r
}

/// First sorted position not below the key, scanning from `from`.
fn insert_pos(out: &Vec<String>, k: &str, from: usize) -> (p: usize)
    requires
        from <= out.len(),
        forall|j: int| 0 <= j < from ==> !lex_lt(k@, (#[trigger] out.deep_view()[j])),
    ensures
        from <= p <= out.len(),
        forall|j: int| 0 <= j < p ==> !lex_lt(k@, (#[trigger] out.deep_view()[j])),
        (p as int) < out.deep_view().len() ==> lex_lt(k@, out.deep_view()[p as int]),
    decreases out.len() - from,
{
    if from >= out.len() {
        return from;
    }
    let cur: &String = &out[from];
    proof {
        assert(out.deep_view()[from as int] == cur@);
    }
    if str_lt(k, cur.as_str()) {
        from
    } else {
        insert_pos(out, k, from + 1)
    }
}

/// Insert a key into a sorted vector, keeping it sorted.
fn sorted_insert(out: &mut Vec<String>, k: String)
    requires
        sorted_lex(old(out).deep_view()),
    ensures
        sorted_lex(final(out).deep_view()),
        final(out).deep_view().to_multiset() == old(out).deep_view().to_multiset().insert(k@),
{
    let p: usize = insert_pos(out, k.as_str(), 0);
    let ghost oldv = out.deep_view();
    out.insert(p, k);
    proof {
        broadcast use vstd::seq_lib::to_multiset_insert;

        assert(out.deep_view() =~= oldv.insert(p as int, k@));
        assert(out.deep_view().to_multiset() =~= oldv.to_multiset().insert(k@));
        assert forall|i: int| #![trigger out.deep_view()[i + 1]]
            0 <= i && i + 1 < out.deep_view().len() implies !lex_lt(
            out.deep_view()[i + 1],
            out.deep_view()[i],
        ) by {
            let dv = out.deep_view();
            if i + 1 < p {
                assert(dv[i] == oldv[i] && dv[i + 1] == oldv[i + 1]);
                assert(!lex_lt(oldv[i + 1], oldv[i]));
            } else if i + 1 == p {
                assert(dv[i] == oldv[i] && dv[i + 1] == k@);
                assert(!lex_lt(k@, oldv[i]));
            } else if i == p {
                assert(dv[i] == k@ && dv[i + 1] == oldv[i]);
                if p < oldv.len() {
                    assert(lex_lt(k@, oldv[p as int]));
                    lemma_lex_asym(k@, oldv[p as int]);
                }
            } else {
                assert(dv[i] == oldv[i - 1] && dv[i + 1] == oldv[i]);
                let q = i - 1;
                assert(0 <= q && q + 1 < oldv.len());
                assert(!lex_lt(oldv[q + 1], oldv[q]));
            }
        }
    }
}

proof fn lemma_put_unique<V>(s: Seq<(Seq<char>, V)>, key: Seq<char>, v: V)
    requires
        unique_keys(s),
    ensures
        unique_keys(assoc_put(s, key, v)),
{
    lemma_find_assoc(s, key);
    let i = find_assoc(s, key);
    let s2 = assoc_put(s, key, v);
    assert forall|a: int, b: int| 0 <= a < b < s2.len() implies (#[trigger] s2[a].0) != (
    #[trigger] s2[b].0) by {
        if i < s.len() {
            if a != i && b != i {
                assert(s2[a] == s[a] && s2[b] == s[b]);
            } else if a == i {
                assert(s2[a].0 == key && s2[b] == s[b]);
                assert(s[i].0 == key);
            } else {
                assert(s2[b].0 == key && s2[a] == s[a]);
                assert(s[i].0 == key);
            }
        } else {
            if b == s.len() {
                assert(s2[b].0 == key && s2[a] == s[a]);
            } else {
                assert(s2[a] == s[a] && s2[b] == s[b]);
            }
        }
    }
}

proof fn lemma_drop_unique<V>(s: Seq<(Seq<char>, V)>, key: Seq<char>)
    requires
        unique_keys(s),
    ensures
        unique_keys(assoc_drop(s, key)),
{
    lemma_find_assoc(s, key);
    let i = find_assoc(s, key);
    let s2 = assoc_drop(s, key);
    if i < s.len() {
        assert forall|a: int, b: int| 0 <= a < b < s2.len() implies (#[trigger] s2[a].0) != (
        #[trigger] s2[b].0) by {
            let ai = if a < i {
                a
            } else {
                a + 1
            };
            let bi = if b < i {
                b
            } else {
                b + 1
            };
            assert(s2[a] == s[ai] && s2[b] == s[bi]);
        }
    }
}

} // verus!
