//! Quoted words: what stands between the quotes, and how any text can be
//! written between them.

use vstd::prelude::*;

use crate::text::{chars_of, string_between};

verus! {

/// `s` with each backslash removed and the character after it kept as it is.
/// A backslash with nothing after it is dropped.
pub open spec fn unescape(s: Seq<char>) -> Seq<char>
    decreases s.len(),
{
    if s.len() == 0 {
        seq![]
    } else if s[0] != '\\' {
        seq![s[0]] + unescape(s.skip(1))
    } else if s.len() == 1 {
        seq![]
    } else {
        seq![s[1]] + unescape(s.skip(2))
    }
}

/// Whether `raw` begins and ends with a quote of its own.
pub open spec fn is_quoted(raw: Seq<char>) -> bool {
    raw.len() >= 2 && raw[0] == '"' && raw.last() == '"'
}

/// The text that the word `raw` stands for.
pub open spec fn unquoted(raw: Seq<char>) -> Seq<char> {
    if is_quoted(raw) {
        unescape(raw.subrange(1, raw.len() - 1))
    } else {
        raw
    }
}

/// Strips surrounding quotes and resolves backslash escapes. A word that is
/// not quoted passes through unchanged.
pub fn unquote(raw: &str) -> (r: String)
    ensures
        r@ == unquoted(raw@),
{
    let v = chars_of(raw);
    assert(v@.subrange(0, v@.len() as int) =~= v@);
    unquote_between(&v, 0, v.len())
}

/// The text that the word `from..to` of `v` stands for.
pub fn unquote_between(v: &Vec<char>, from: usize, to: usize) -> (r: String)
    requires
        from <= to <= v@.len(),
    ensures
        r@ == unquoted(v@.subrange(from as int, to as int)),
{
    let ghost raw = v@.subrange(from as int, to as int);
    if to - from < 2 || v[from] != '"' || v[to - 1] != '"' {
        return string_between(v.as_slice(), from, to);
    }
    let ghost inner = raw.subrange(1, raw.len() - 1);
    let end: usize = to - 1;
    let mut out = String::new();
    let mut i: usize = from + 1;
    assert(inner.skip(0) =~= inner);
    while i < end
        invariant
            from < i <= end,
            end < to <= v@.len(),
            inner == v@.subrange(from + 1, end as int),
            unescape(inner) == out@ + unescape(inner.skip(i - from - 1)),
        decreases end - i,
    {
        let ghost rest = inner.skip(i - from - 1);
        let c = v[i];
        assert(rest[0] == c);
        let ghost before = out@;
        if c != '\\' {
            out.push(c);
            assert(rest.skip(1) =~= inner.skip(i - from));
            assert(before + (seq![c] + unescape(rest.skip(1))) =~= out@ + unescape(rest.skip(1)));
            i = i + 1;
        } else if i + 1 < end {
            out.push(v[i + 1]);
            assert(rest[1] == v@[i + 1]);
            assert(rest.skip(2) =~= inner.skip(i + 1 - from));
            assert(before + (seq![rest[1]] + unescape(rest.skip(2))) =~= out@ + unescape(
                rest.skip(2),
            ));
            i = i + 2;
        } else {
            assert(inner.skip(i - from) =~= seq![]);
            i = i + 1;
        }
    }
    assert(inner.skip(i - from - 1) =~= seq![]);
    assert(out@ =~= unescape(inner));
    out
}

/// `s` with a backslash before each quote and each backslash.
pub open spec fn escape(s: Seq<char>) -> Seq<char>
    decreases s.len(),
{
    if s.len() == 0 {
        seq![]
    } else if s[0] == '"' || s[0] == '\\' {
        seq!['\\', s[0]] + escape(s.skip(1))
    } else {
        seq![s[0]] + escape(s.skip(1))
    }
}

/// The quoted word that stands for `s`.
pub open spec fn quoted(s: Seq<char>) -> Seq<char> {
    seq!['"'] + escape(s) + seq!['"']
}

proof fn lemma_unescape_escape(s: Seq<char>)
    ensures
        unescape(escape(s)) == s,
    decreases s.len(),
{
    if s.len() > 0 {
        let tail = s.skip(1);
        lemma_unescape_escape(tail);
        assert(s =~= seq![s[0]] + tail);
        if s[0] == '"' || s[0] == '\\' {
            assert(escape(s).skip(2) =~= escape(tail));
        } else {
            assert(escape(s).skip(1) =~= escape(tail));
        }
    }
}

/// Every text can be written as a quoted word: the quoted word stands for
/// that text again.
pub proof fn law_quoting(s: Seq<char>)
    ensures
        unquoted(quoted(s)) == s,
{
    lemma_unescape_escape(s);
    assert(quoted(s).subrange(1, quoted(s).len() - 1) =~= escape(s));
}

/// A word that does not begin with a quote stands for itself.
pub proof fn law_bare_words(raw: Seq<char>)
    requires
        raw.len() == 0 || raw[0] != '"',
    ensures
        unquoted(raw) == raw,
{
}

/// Between quotes every character stands for itself, but for a backslash,
/// which goes and leaves the character behind it as it is.
pub proof fn law_quoted_characters(c: char, s: Seq<char>)
    ensures
        unquoted(seq!['"', '"']) == Seq::<char>::empty(),
        c != '\\' ==> unquoted(seq!['"', c] + s + seq!['"']) == seq![c] + unquoted(
            seq!['"'] + s + seq!['"'],
        ),
        unquoted(seq!['"', '\\', c] + s + seq!['"']) == seq![c] + unquoted(
            seq!['"'] + s + seq!['"'],
        ),
        unquoted(seq!['"', '\\', '"']) == Seq::<char>::empty(),
{
    let plain = seq!['"'] + s + seq!['"'];
    assert(plain.subrange(1, plain.len() - 1) =~= s);
    let one = seq!['"', c] + s + seq!['"'];
    assert(one.subrange(1, one.len() - 1) =~= seq![c] + s);
    assert((seq![c] + s).skip(1) =~= s);
    let two = seq!['"', '\\', c] + s + seq!['"'];
    assert(two.subrange(1, two.len() - 1) =~= seq!['\\', c] + s);
    assert((seq!['\\', c] + s).skip(2) =~= s);
    let none = seq!['"', '"'];
    assert(none.subrange(1, 1) =~= seq![]);
    let lone = seq!['"', '\\', '"'];
    assert(lone.subrange(1, 2) =~= seq!['\\']);
}

/// A word without a quote at each of its ends stands for itself.
pub proof fn law_unquoted_words(raw: Seq<char>)
    requires
        raw.len() < 2 || raw[0] != '"' || raw.last() != '"',
    ensures
        unquoted(raw) == raw,
{
}

} // verus!
