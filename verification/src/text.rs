//! Texts as sequences of characters, and the few operations on them that the
//! rest of the library is built from.

use vstd::prelude::*;

verus! {

/// `String::push` appends the character to the end of the string.
pub assume_specification[ String::push ](s: &mut String, c: char)
    ensures
        final(s)@ == old(s)@.push(c),
;

// ---------------------------------------------------------------------------
// Characters
// ---------------------------------------------------------------------------

/// The characters with the Unicode property `White_Space`.
pub open spec fn white_space(c: char) -> bool {
    ||| '\u{9}' <= c <= '\u{d}'
    ||| c == '\u{20}'
    ||| c == '\u{85}'
    ||| c == '\u{a0}'
    ||| c == '\u{1680}'
    ||| '\u{2000}' <= c <= '\u{200a}'
    ||| c == '\u{2028}'
    ||| c == '\u{2029}'
    ||| c == '\u{202f}'
    ||| c == '\u{205f}'
    ||| c == '\u{3000}'
}

/// The kinds of characters that the library's texts are cut along.
#[derive(Debug, Clone, Copy, PartialEq, Eq, Structural)]
pub enum Class {
    /// Unicode white space.
    White,
    /// Everything but Unicode white space.
    Ink,
    /// Everything but the space character.
    Unspaced,
    /// Everything but the line feed.
    Unbroken,
    /// `0` to `9`.
    Digit,
    /// `0` to `9`, `a` to `f` and `A` to `F`.
    Hex,
    /// `/`.
    Slash,
    /// Space and tab, which separate the words of a statement.
    Blank,
    /// What may stand between two statements: blanks, line breaks and `;`.
    Gap,
    /// What an unquoted word of a statement is made of: everything but
    /// blanks, line breaks, `;`, braces and the double quote.
    Bare,
}

/// Whether `c` ends a statement.
pub open spec fn is_break(c: char) -> bool {
    c == '\n' || c == '\r' || c == ';'
}

/// Whether `c` is of the kind `k`.
pub open spec fn in_class(k: Class, c: char) -> bool {
    match k {
        Class::White => white_space(c),
        Class::Ink => !white_space(c),
        Class::Unspaced => c != ' ',
        Class::Unbroken => c != '\n',
        Class::Digit => '0' <= c <= '9',
        Class::Hex => '0' <= c <= '9' || 'a' <= c <= 'f' || 'A' <= c <= 'F',
        Class::Slash => c == '/',
        Class::Blank => c == ' ' || c == '\t',
        Class::Gap => c == ' ' || c == '\t' || is_break(c),
        Class::Bare => !(c == ' ' || c == '\t' || is_break(c) || c == '{' || c == '}' || c == '"'),
    }
}

impl Class {
    /// Whether `c` is of this kind.
    pub fn has(self, c: char) -> (r: bool)
        ensures
            r == in_class(self, c),
    {
        match self {
            Class::White => is_white_space(c),
            Class::Ink => !is_white_space(c),
            Class::Unspaced => c != ' ',
            Class::Unbroken => c != '\n',
            Class::Digit => '0' <= c && c <= '9',
            Class::Hex => ('0' <= c && c <= '9') || ('a' <= c && c <= 'f') || ('A' <= c && c
                <= 'F'),
            Class::Slash => c == '/',
            Class::Blank => c == ' ' || c == '\t',
            Class::Gap => c == ' ' || c == '\t' || c == '\n' || c == '\r' || c == ';',
            Class::Bare => !(c == ' ' || c == '\t' || c == '\n' || c == '\r' || c == ';' || c == '{'
                || c == '}' || c == '"'),
        }
    }
}

/// Whether `c` has the Unicode property `White_Space`.
pub fn is_white_space(c: char) -> (r: bool)
    ensures
        r == white_space(c),
{
    ('\u{9}' <= c && c <= '\u{d}') || c == '\u{20}' || c == '\u{85}' || c == '\u{a0}' || c
        == '\u{1680}' || ('\u{2000}' <= c && c <= '\u{200a}') || c == '\u{2028}' || c == '\u{2029}'
        || c == '\u{202f}' || c == '\u{205f}' || c == '\u{3000}'
}

/// `c` with an upper-case ASCII letter made lower case.
pub open spec fn lower(c: char) -> char {
    if 'A' <= c && c <= 'Z' {
        ((c as u32) + 32) as char
    } else {
        c
    }
}

fn lower_char(c: char) -> (r: char)
    ensures
        r == lower(c),
{
    if 'A' <= c && c <= 'Z' {
        ((c as u8) + 32) as char
    } else {
        c
    }
}

// ---------------------------------------------------------------------------
// Between `str`, `String` and characters
// ---------------------------------------------------------------------------

/// The characters of `s`, in order.
pub fn chars_of(s: &str) -> (r: Vec<char>)
    ensures
        r@ == s@,
{
    let mut out: Vec<char> = Vec::new();
    for c in it: s.chars()
        invariant
            out@ == it.seq().take(it.index() as int),
            it.seq() == s@,
    {
        out.push(c);
    }
    out
}

/// The string that holds the characters `from..to` of `v`.
pub fn string_between(v: &[char], from: usize, to: usize) -> (r: String)
    requires
        from <= to <= v@.len(),
    ensures
        r@ == v@.subrange(from as int, to as int),
{
    let mut out = String::new();
    let mut i: usize = from;
    while i < to
        invariant
            from <= i <= to <= v@.len(),
            out@ == v@.subrange(from as int, i as int),
        decreases to - i,
    {
        out.push(v[i]);
        assert(v@.subrange(from as int, i as int).push(v@[i as int]) =~= v@.subrange(
            from as int,
            i + 1,
        ));
        i = i + 1;
    }
    out
}

/// Whether two texts are the same.
pub fn same_text(a: &str, b: &str) -> (r: bool)
    ensures
        r == (a@ == b@),
{
    let v = chars_of(a);
    let w = chars_of(b);
    if v.len() != w.len() {
        return false;
    }
    let mut i: usize = 0;
    while i < v.len()
        invariant
            i <= v@.len(),
            v@.len() == w@.len(),
            v@ == a@,
            w@ == b@,
            forall|j: int| 0 <= j < i ==> v@[j] == w@[j],
        decreases v@.len() - i,
    {
        if v[i] != w[i] {
            return false;
        }
        i = i + 1;
    }
    assert(v@ =~= w@);
    true
}

/// The two texts one after the other.
pub fn chain(a: &str, b: &str) -> (r: String)
    ensures
        r@ == a@ + b@,
{
    let mut out = String::new();
    out.append(a);
    out.append(b);
    assert(out@ =~= a@ + b@);
    out
}

/// A copy of the strings of `v`.
pub fn copy_strings(v: &[String]) -> (r: Vec<String>)
    ensures
        r.deep_view() == v.deep_view(),
{
    let mut out: Vec<String> = Vec::new();
    let mut i: usize = 0;
    while i < v.len()
        invariant
            i <= v@.len(),
            out@.len() == i,
            forall|j: int| 0 <= j < i ==> (#[trigger] out@[j])@ == v@[j]@,
        decreases v@.len() - i,
    {
        out.push(v[i].clone());
        i = i + 1;
    }
    assert(out.deep_view() =~= v.deep_view());
    out
}

/// Every character of `s` made lower case.
pub open spec fn lower_text(s: Seq<char>) -> Seq<char> {
    s.map_values(|c: char| lower(c))
}

/// `s` with its ASCII letters made lower case.
pub fn lowercase(s: &str) -> (r: String)
    ensures
        r@ == lower_text(s@),
{
    let v = chars_of(s);
    let mut out = String::new();
    let mut i: usize = 0;
    while i < v.len()
        invariant
            i <= v@.len(),
            v@ == s@,
            out@ == lower_text(s@.take(i as int)),
        decreases v@.len() - i,
    {
        out.push(lower_char(v[i]));
        assert(lower_text(s@.take(i as int)).push(lower(s@[i as int])) =~= lower_text(
            s@.take(i + 1),
        ));
        i = i + 1;
    }
    assert(s@.take(i as int) =~= s@);
    out
}

// ---------------------------------------------------------------------------
// Runs of characters
// ---------------------------------------------------------------------------

/// Where the run of characters of kind `k` that starts at `p` ends.
pub open spec fn run_end(s: Seq<char>, p: int, k: Class) -> int
    decreases s.len() - p,
{
    if 0 <= p < s.len() && in_class(k, s[p]) {
        run_end(s, p + 1, k)
    } else {
        p
    }
}

/// A run ends within the text, holds only characters of its kind, and stops
/// at the first that is not.
pub proof fn lemma_run_end(s: Seq<char>, p: int, k: Class)
    requires
        0 <= p <= s.len(),
    ensures
        p <= run_end(s, p, k) <= s.len(),
        forall|i: int| p <= i < run_end(s, p, k) ==> in_class(k, #[trigger] s[i]),
        run_end(s, p, k) < s.len() ==> !in_class(k, s[run_end(s, p, k)]),
    decreases s.len() - p,
{
    if p < s.len() && in_class(k, s[p]) {
        lemma_run_end(s, p + 1, k);
    }
}

/// What determines the end of a run.
pub proof fn lemma_run_end_is(s: Seq<char>, p: int, e: int, k: Class)
    requires
        0 <= p <= e <= s.len(),
        forall|i: int| p <= i < e ==> in_class(k, #[trigger] s[i]),
        e < s.len() ==> !in_class(k, s[e]),
    ensures
        run_end(s, p, k) == e,
    decreases e - p,
{
    if p < e {
        assert(in_class(k, s[p]));
        lemma_run_end_is(s, p + 1, e, k);
    }
}

/// Where the run of characters of kind `k` that starts at `p` ends.
pub fn skip_run(v: &[char], p: usize, k: Class) -> (r: usize)
    requires
        p <= v@.len(),
    ensures
        r == run_end(v@, p as int, k),
        p <= r <= v@.len(),
{
    let mut i: usize = p;
    while i < v.len() && k.has(v[i])
        invariant
            p <= i <= v@.len(),
            forall|j: int| p <= j < i ==> in_class(k, #[trigger] v@[j]),
        decreases v@.len() - i,
    {
        i = i + 1;
    }
    proof {
        lemma_run_end_is(v@, p as int, i as int, k);
    }
    i
}

/// Where the run of characters of kind `k` that ends at `hi` begins, not
/// before `lo`.
pub open spec fn run_start(s: Seq<char>, lo: int, hi: int, k: Class) -> int
    decreases hi - lo,
{
    if lo < hi && in_class(k, s[hi - 1]) {
        run_start(s, lo, hi - 1, k)
    } else {
        hi
    }
}

/// `s` without the white space at its two ends.
pub open spec fn trim_text(s: Seq<char>) -> Seq<char> {
    let a = run_end(s, 0, Class::White);
    s.subrange(a, run_start(s, a, s.len() as int, Class::White))
}

/// The characters of `s` without the white space at its two ends.
pub fn trim_chars(v: &[char]) -> (r: Vec<char>)
    ensures
        r@ == trim_text(v@),
{
    let a = skip_run(v, 0, Class::White);
    let mut b: usize = v.len();
    while a < b && Class::White.has(v[b - 1])
        invariant
            a <= b <= v@.len(),
            run_start(v@, a as int, v@.len() as int, Class::White) == run_start(
                v@,
                a as int,
                b as int,
                Class::White,
            ),
        decreases b,
    {
        b = b - 1;
    }
    copy_between(v, a, b)
}

/// The characters `from..to` of `v`.
pub fn copy_between(v: &[char], from: usize, to: usize) -> (r: Vec<char>)
    requires
        from <= to <= v@.len(),
    ensures
        r@ == v@.subrange(from as int, to as int),
{
    let mut out: Vec<char> = Vec::new();
    let mut i: usize = from;
    while i < to
        invariant
            from <= i <= to <= v@.len(),
            out@ == v@.subrange(from as int, i as int),
        decreases to - i,
    {
        out.push(v[i]);
        assert(v@.subrange(from as int, i as int).push(v@[i as int]) =~= v@.subrange(
            from as int,
            i + 1,
        ));
        i = i + 1;
    }
    out
}

// ---------------------------------------------------------------------------
// Words
// ---------------------------------------------------------------------------

/// The maximal runs of characters other than white space, from `p` on.
pub open spec fn words_from(s: Seq<char>, p: int) -> Seq<Seq<char>>
    decreases s.len() - p,
{
    let a = run_end(s, p, Class::White);
    let b = run_end(s, a, Class::Ink);
    if 0 <= p <= s.len() && a < s.len() {
        proof {
            lemma_run_end(s, p, Class::White);
            lemma_run_end(s, a, Class::Ink);
        }
        seq![s.subrange(a, b)] + words_from(s, b)
    } else {
        seq![]
    }
}

/// The words of `s`: its maximal runs of characters other than white space.
pub open spec fn words(s: Seq<char>) -> Seq<Seq<char>> {
    words_from(s, 0)
}

/// The words of `v`.
pub fn split_words(v: &[char]) -> (r: Vec<String>)
    ensures
        r.deep_view() == words(v@),
{
    let mut out: Vec<String> = Vec::new();
    let mut p: usize = 0;
    loop
        invariant
            p <= v@.len(),
            words(v@) == out.deep_view() + words_from(v@, p as int),
        decreases v@.len() - p,
    {
        let a = skip_run(v, p, Class::White);
        if a >= v.len() {
            assert(words(v@) =~= out.deep_view());
            return out;
        }
        let b = skip_run(v, a, Class::Ink);
        proof {
            lemma_run_end(v@, p as int, Class::White);
            lemma_run_end(v@, a as int, Class::Ink);
        }
        let ghost before = out.deep_view();
        out.push(string_between(v, a, b));
        assert(out.deep_view() =~= before.push(v@.subrange(a as int, b as int)));
        assert(before + (seq![v@.subrange(a as int, b as int)] + words_from(v@, b as int))
            =~= out.deep_view() + words_from(v@, b as int));
        p = b;
    }
}

/// The pieces of `s` from `p` on, cut at each single space.
pub open spec fn pieces_from(s: Seq<char>, p: int) -> Seq<Seq<char>>
    decreases s.len() - p,
{
    let b = run_end(s, p, Class::Unspaced);
    if 0 <= p <= s.len() && b < s.len() {
        proof {
            lemma_run_end(s, p, Class::Unspaced);
        }
        seq![s.subrange(p, b)] + pieces_from(s, b + 1)
    } else {
        seq![s.subrange(p, s.len() as int)]
    }
}

/// `parts` with one space between each two.
pub open spec fn join(parts: Seq<Seq<char>>) -> Seq<char>
    decreases parts.len(),
{
    if parts.len() == 0 {
        seq![]
    } else if parts.len() == 1 {
        parts[0]
    } else {
        join(parts.drop_last()).push(' ') + parts.last()
    }
}

/// `parts` with one space between each two.
pub fn join_strings(parts: &[String]) -> (r: String)
    ensures
        r@ == join(parts.deep_view()),
{
    let mut out = String::new();
    let mut i: usize = 0;
    while i < parts.len()
        invariant
            i <= parts@.len(),
            out@ == join(parts.deep_view().take(i as int)),
        decreases parts@.len() - i,
    {
        proof {
            let d = parts.deep_view();
            assert(d.take(i + 1).drop_last() =~= d.take(i as int));
            assert(d.take(i + 1).last() == parts@[i as int]@);
            assert(d.take(i + 1).len() == 1 ==> d.take(i as int) =~= seq![]);
        }
        if i > 0 {
            out.push(' ');
        }
        out.append(parts[i].as_str());
        assert(out@ =~= join(parts.deep_view().take(i + 1)));
        i = i + 1;
    }
    assert(parts.deep_view().take(i as int) =~= parts.deep_view());
    out
}

// ---------------------------------------------------------------------------
// Searching
// ---------------------------------------------------------------------------

/// The first place from `p` on at which `a` and then `b` stand.
pub open spec fn pair_from(s: Seq<char>, p: int, a: char, b: char) -> Option<int>
    decreases s.len() - p,
{
    if p < 0 || p + 1 >= s.len() {
        None
    } else if s[p] == a && s[p + 1] == b {
        Some(p)
    } else {
        pair_from(s, p + 1, a, b)
    }
}

/// What determines the first place of a pair.
pub proof fn lemma_pair_from_is(s: Seq<char>, p: int, a: char, b: char, at: int)
    requires
        0 <= p <= at,
        at + 1 < s.len(),
        s[at] == a,
        s[at + 1] == b,
        forall|i: int| p <= i < at ==> !(#[trigger] s[i] == a && s[i + 1] == b),
    ensures
        pair_from(s, p, a, b) == Some(at),
    decreases at - p,
{
    if p < at {
        assert(!(s[p] == a && s[p + 1] == b));
        lemma_pair_from_is(s, p + 1, a, b, at);
    }
}

/// The first place from `p` on at which `a` and then `b` stand.
pub fn find_pair(v: &[char], p: usize, a: char, b: char) -> (r: Option<usize>)
    requires
        p <= v@.len(),
    ensures
        match pair_from(v@, p as int, a, b) {
            Some(i) => r matches Some(j) && i == j && p <= j && j + 1 < v@.len(),
            None => r is None,
        },
{
    let mut i: usize = p;
    while i < v.len() && v.len() - i > 1
        invariant
            p <= i <= v@.len(),
            pair_from(v@, p as int, a, b) == pair_from(v@, i as int, a, b),
        decreases v@.len() - i,
    {
        if v[i] == a && v[i + 1] == b {
            return Some(i);
        }
        i = i + 1;
    }
    None
}

/// The last place before `n` at which `c` stands.
pub open spec fn last_before(s: Seq<char>, n: int, c: char) -> Option<int>
    decreases n,
{
    if n <= 0 || n > s.len() {
        None
    } else if s[n - 1] == c {
        Some(n - 1)
    } else {
        last_before(s, n - 1, c)
    }
}

/// The last place before `n` at which `c` stands.
pub fn find_last(v: &[char], n: usize, c: char) -> (r: Option<usize>)
    requires
        n <= v@.len(),
    ensures
        match last_before(v@, n as int, c) {
            Some(i) => r matches Some(j) && i == j && j < n,
            None => r is None,
        },
{
    let mut i: usize = n;
    while i > 0
        invariant
            i <= n <= v@.len(),
            last_before(v@, n as int, c) == last_before(v@, i as int, c),
        decreases i,
    {
        if v[i - 1] == c {
            return Some(i - 1);
        }
        i = i - 1;
    }
    None
}

/// Whether `v` begins with `start`.
pub fn begins_with(v: &[char], start: &str) -> (r: bool)
    ensures
        r == start@.is_prefix_of(v@),
        r ==> start@.len() <= v@.len(),
{
    let w = chars_of(start);
    if w.len() > v.len() {
        return false;
    }
    let mut i: usize = 0;
    while i < w.len()
        invariant
            i <= w@.len() <= v@.len(),
            w@ == start@,
            forall|j: int| 0 <= j < i ==> w@[j] == v@[j],
        decreases w@.len() - i,
    {
        if w[i] != v[i] {
            assert(v@.subrange(0, w@.len() as int)[i as int] == v@[i as int]);
            return false;
        }
        i = i + 1;
    }
    assert(w@ =~= v@.subrange(0, w@.len() as int));
    true
}

// ---------------------------------------------------------------------------
// Lines
// ---------------------------------------------------------------------------

/// A line without the carriage return at its end.
pub open spec fn without_return(line: Seq<char>) -> Seq<char> {
    if line.len() > 0 && line.last() == '\r' {
        line.drop_last()
    } else {
        line
    }
}

/// The lines of `s` from `p` on. A line ends with a line feed, which may
/// follow a carriage return; the last one may end with the text.
pub open spec fn lines_from(s: Seq<char>, p: int) -> Seq<Seq<char>>
    decreases s.len() - p,
{
    let e = run_end(s, p, Class::Unbroken);
    if !(0 <= p < s.len()) {
        seq![]
    } else if e < s.len() {
        proof {
            lemma_run_end(s, p, Class::Unbroken);
        }
        seq![without_return(s.subrange(p, e))] + lines_from(s, e + 1)
    } else {
        seq![s.subrange(p, s.len() as int)]
    }
}

/// The lines of `text`.
pub fn split_lines(text: &str) -> (r: Vec<String>)
    ensures
        r.deep_view() == lines_from(text@, 0),
{
    let v = chars_of(text);
    let mut out: Vec<String> = Vec::new();
    let mut p: usize = 0;
    assert(lines_from(v@, 0) =~= out.deep_view() + lines_from(v@, 0));
    while p < v.len()
        invariant
            p <= v@.len(),
            v@ == text@,
            lines_from(text@, 0) == out.deep_view() + lines_from(v@, p as int),
        decreases v@.len() - p,
    {
        let e = skip_run(v.as_slice(), p, Class::Unbroken);
        proof {
            lemma_run_end(v@, p as int, Class::Unbroken);
        }
        let ghost before = out.deep_view();
        if e >= v.len() {
            let line = string_between(v.as_slice(), p, v.len());
            out.push(line);
            assert(out.deep_view() =~= before.push(line@));
            assert(lines_from(text@, 0) =~= out.deep_view());
            return out;
        }
        let stop: usize = if e > p && v[e - 1] == '\r' {
            e - 1
        } else {
            e
        };
        let line = string_between(v.as_slice(), p, stop);
        assert(line@ =~= without_return(v@.subrange(p as int, e as int)));
        out.push(line);
        assert(out.deep_view() =~= before.push(line@));
        assert(before + (seq![line@] + lines_from(v@, e + 1)) =~= out.deep_view() + lines_from(
            v@,
            e + 1,
        ));
        p = e + 1;
    }
    assert(lines_from(text@, 0) =~= out.deep_view());
    out
}

} // verus!
