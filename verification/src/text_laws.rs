//! What holds of cutting texts apart.

use vstd::prelude::*;

use crate::text::{
    in_class, is_break, join, lemma_run_end, lemma_run_end_is, lines_from, lower_text, run_end,
    run_start, trim_text, white_space, without_return, words, words_from, Class,
};

verus! {

/// Whether `s` is nothing but white space.
pub open spec fn is_white(s: Seq<char>) -> bool {
    forall|i: int| 0 <= i < s.len() ==> white_space(#[trigger] s[i])
}

/// Where a run ends does not depend on what stands before it.
pub proof fn lemma_run_shifted(a: Seq<char>, b: Seq<char>, p: int, k: Class)
    requires
        0 <= p <= b.len(),
    ensures
        run_end(a + b, a.len() + p, k) == a.len() + run_end(b, p, k),
{
    let s = a + b;
    let n = a.len() as int;
    let e = run_end(b, p, k);
    lemma_run_end(b, p, k);
    assert forall|i: int| n + p <= i < n + e implies in_class(k, #[trigger] s[i]) by {
        assert(s[i] == b[i - n]);
    }
    assert(e < b.len() ==> s[n + e] == b[e]);
    lemma_run_end_is(s, n + p, n + e, k);
}

// ---------------------------------------------------------------------------
// Characters
// ---------------------------------------------------------------------------

/// What the characters of a script are for: a statement ends at a line feed,
/// a carriage return or a semicolon; words are separated by spaces and tabs;
/// an unquoted word holds none of these, no brace and no double quote.
pub proof fn law_script_characters(c: char)
    ensures
        is_break(c) <==> c == '\n' || c == '\r' || c == ';',
        in_class(Class::Blank, c) <==> c == ' ' || c == '\t',
        in_class(Class::Gap, c) <==> is_break(c) || in_class(Class::Blank, c),
        in_class(Class::Bare, c) <==> {
            &&& c != ' ' && c != '\t' && c != '\n' && c != '\r' && c != ';'
            &&& c != '{' && c != '}' && c != '"'
        },
{
}

/// Which characters are digits, and which are hexadecimal digits.
pub proof fn law_digits(c: char)
    ensures
        in_class(Class::Digit, c) <==> 48 <= c as int <= 57,
        in_class(Class::Hex, c) <==> {
            ||| 48 <= c as int <= 57
            ||| 65 <= c as int <= 70
            ||| 97 <= c as int <= 102
        },
{
}

/// Among the ASCII characters white space is the space and those from the
/// tab to the carriage return; beyond them it is the next-line character, the
/// no-break space and the Unicode spaces and separators. Ink is all else.
pub proof fn law_white_characters(c: char)
    ensures
        in_class(Class::White, c) == white_space(c),
        in_class(Class::Ink, c) == !white_space(c),
        c as int <= 0x7f ==> (white_space(c) <==> c == ' ' || 9 <= c as int <= 13),
        c as int > 0x7f ==> (white_space(c) <==> {
            let n = c as int;
            ||| n == 0x85 || n == 0xa0 || n == 0x1680
            ||| 0x2000 <= n <= 0x200a
            ||| n == 0x2028 || n == 0x2029 || n == 0x202f || n == 0x205f || n == 0x3000
        }),
{
}

// ---------------------------------------------------------------------------
// Letters
// ---------------------------------------------------------------------------

/// Making a text lower case changes the letters `A` to `Z` into `a` to `z`,
/// each in its place, and nothing else.
pub proof fn law_lower_case(s: Seq<char>, i: int)
    requires
        0 <= i < s.len(),
    ensures
        lower_text(s).len() == s.len(),
        'A' <= s[i] <= 'Z' ==> lower_text(s)[i] as int == s[i] as int + ('a' as int - 'A' as int),
        !('A' <= s[i] <= 'Z') ==> lower_text(s)[i] == s[i],
{
}

// ---------------------------------------------------------------------------
// Words
// ---------------------------------------------------------------------------

proof fn lemma_words_shifted(a: Seq<char>, b: Seq<char>, p: int)
    requires
        0 <= p <= b.len(),
    ensures
        words_from(a + b, a.len() + p) == words_from(b, p),
    decreases b.len() - p,
{
    let s = a + b;
    let n = a.len() as int;
    let c = run_end(b, p, Class::White);
    lemma_run_shifted(a, b, p, Class::White);
    lemma_run_end(b, p, Class::White);
    if c < b.len() {
        let d = run_end(b, c, Class::Ink);
        lemma_run_shifted(a, b, c, Class::Ink);
        lemma_run_end(b, c, Class::Ink);
        lemma_words_shifted(a, b, d);
        assert(s.subrange(n + c, n + d) =~= b.subrange(c, d));
    }
}

proof fn lemma_words_split(a: Seq<char>, gap: Seq<char>, b: Seq<char>, p: int)
    requires
        0 <= p <= a.len(),
        gap.len() > 0,
        is_white(gap),
    ensures
        words_from(a + gap + b, p) == words_from(a, p) + words(b),
    decreases a.len() - p,
{
    let s = a + gap + b;
    let n = a.len() as int;
    let m = n + gap.len();
    let c = run_end(a, p, Class::White);
    lemma_run_end(a, p, Class::White);
    assert(s[n] == gap[0]);
    assert(white_space(gap[0]));
    if c < n {
        let d = run_end(a, c, Class::Ink);
        lemma_run_end(a, c, Class::Ink);
        assert forall|i: int| p <= i < c implies in_class(Class::White, #[trigger] s[i]) by {
            assert(s[i] == a[i]);
        }
        assert(s[c] == a[c]);
        lemma_run_end_is(s, p, c, Class::White);
        assert forall|i: int| c <= i < d implies in_class(Class::Ink, #[trigger] s[i]) by {
            assert(s[i] == a[i]);
        }
        assert(d < n ==> s[d] == a[d]);
        lemma_run_end_is(s, c, d, Class::Ink);
        lemma_words_split(a, gap, b, d);
        assert(s.subrange(c, d) =~= a.subrange(c, d));
        assert(words_from(s, p) =~= words_from(a, p) + words(b));
    } else {
        let x = a + gap;
        assert(s =~= x + b);
        let f = run_end(b, 0, Class::White);
        lemma_run_end(b, 0, Class::White);
        assert forall|i: int| p <= i < m + f implies in_class(Class::White, #[trigger] s[i]) by {
            if i < n {
                assert(s[i] == a[i]);
            } else if i < m {
                assert(s[i] == gap[i - n]);
            } else {
                assert(s[i] == b[i - m]);
            }
        }
        assert(f < b.len() ==> s[m + f] == b[f]);
        lemma_run_end_is(s, p, m + f, Class::White);
        lemma_run_end_is(s, m, m + f, Class::White);
        lemma_words_shifted(x, b, 0);
        assert(words_from(s, p) =~= words_from(s, m));
        assert(words_from(a, p) =~= seq![]);
        assert(words_from(s, p) =~= words_from(a, p) + words(b));
    }
}

/// White space of any kind and length separates words: the words of two texts
/// with white space between them are those of the one and then those of the
/// other.
pub proof fn law_words_between_white(a: Seq<char>, gap: Seq<char>, b: Seq<char>)
    requires
        gap.len() > 0,
        is_white(gap),
    ensures
        words(a + gap + b) == words(a) + words(b),
{
    lemma_words_split(a, gap, b, 0);
}

/// A text without white space is one word, and white space alone is none.
pub proof fn law_single_word(w: Seq<char>)
    ensures
        w.len() > 0 && (forall|i: int| 0 <= i < w.len() ==> !white_space(#[trigger] w[i]))
            ==> words(w) == seq![w],
        is_white(w) ==> words(w) == Seq::<Seq<char>>::empty(),
{
    if is_white(w) {
        lemma_run_end_is(w, 0, w.len() as int, Class::White);
        assert(words(w) =~= Seq::<Seq<char>>::empty());
    } else if w.len() > 0 && (forall|i: int| 0 <= i < w.len() ==> !white_space(#[trigger] w[i])) {
        assert(!white_space(w[0]));
        lemma_run_end_is(w, 0, 0, Class::White);
        lemma_run_end_is(w, 0, w.len() as int, Class::Ink);
        assert(w.subrange(0, w.len() as int) =~= w);
        assert(words_from(w, w.len() as int) =~= seq![]);
        assert(words(w) =~= seq![w]);
    }
}

/// Joined texts are the texts in order, with one space between each two.
pub proof fn law_join(first: Seq<Seq<char>>, second: Seq<Seq<char>>, w: Seq<char>)
    ensures
        join(Seq::<Seq<char>>::empty()) == Seq::<char>::empty(),
        join(seq![w]) == w,
        first.len() > 0 && second.len() > 0 ==> join(first + second) == join(first) + seq![' ']
            + join(second),
    decreases second.len(),
{
    if first.len() > 0 && second.len() > 0 {
        let all = first + second;
        assert(all.drop_last() =~= first + second.drop_last());
        assert(all.last() == second.last());
        if second.len() == 1 {
            assert(all.drop_last() =~= first);
            assert(join(all) =~= join(first) + seq![' '] + join(second));
        } else {
            law_join(first, second.drop_last(), w);
            assert(join(all) =~= join(first) + seq![' '] + join(second));
        }
    }
}

// ---------------------------------------------------------------------------
// Ends
// ---------------------------------------------------------------------------

proof fn lemma_run_start_is(s: Seq<char>, lo: int, hi: int, b: int)
    requires
        0 <= lo <= b <= hi <= s.len(),
        forall|i: int| b <= i < hi ==> white_space(#[trigger] s[i]),
        lo < b ==> !white_space(s[b - 1]),
    ensures
        run_start(s, lo, hi, Class::White) == b,
    decreases hi - b,
{
    if b < hi {
        assert(white_space(s[hi - 1]));
        lemma_run_start_is(s, lo, hi - 1, b);
    }
}

/// Trimming takes away all the white space before and behind a text, and
/// nothing of the text itself.
pub proof fn law_trim(before: Seq<char>, s: Seq<char>, behind: Seq<char>)
    requires
        is_white(before),
        is_white(behind),
        s.len() > 0 ==> !white_space(s[0]) && !white_space(s.last()),
    ensures
        trim_text(before + s + behind) == s,
{
    let t = before + s + behind;
    let a = before.len() as int;
    let b = a + s.len();
    if s.len() == 0 {
        assert forall|i: int| 0 <= i < t.len() implies in_class(Class::White, #[trigger] t[i]) by {
            if i < a {
                assert(t[i] == before[i]);
            } else {
                assert(t[i] == behind[i - a]);
            }
        }
        lemma_run_end_is(t, 0, t.len() as int, Class::White);
        assert(trim_text(t) =~= s);
    } else {
        assert forall|i: int| 0 <= i < a implies in_class(Class::White, #[trigger] t[i]) by {
            assert(t[i] == before[i]);
        }
        assert(t[a] == s[0]);
        lemma_run_end_is(t, 0, a, Class::White);
        assert forall|i: int| b <= i < t.len() implies white_space(#[trigger] t[i]) by {
            assert(t[i] == behind[i - b]);
        }
        assert(t[b - 1] == s.last());
        lemma_run_start_is(t, a, t.len() as int, b);
        assert(trim_text(t) =~= s);
    }
}

// ---------------------------------------------------------------------------
// Lines
// ---------------------------------------------------------------------------

proof fn lemma_lines_shifted(a: Seq<char>, b: Seq<char>, p: int)
    requires
        0 <= p <= b.len(),
    ensures
        lines_from(a + b, a.len() + p) == lines_from(b, p),
    decreases b.len() - p,
{
    let s = a + b;
    let n = a.len() as int;
    let e = run_end(b, p, Class::Unbroken);
    lemma_run_shifted(a, b, p, Class::Unbroken);
    lemma_run_end(b, p, Class::Unbroken);
    if p < b.len() {
        assert(s.subrange(n + p, n + e) =~= b.subrange(p, e));
        if e < b.len() {
            lemma_lines_shifted(a, b, e + 1);
        }
    }
}

/// A line ends at a line feed, with which a carriage return before it goes;
/// the lines of the rest follow. What is behind the last line feed is a line
/// if it is not empty, and is left as it is.
pub proof fn law_lines(line: Seq<char>, rest: Seq<char>)
    requires
        !line.contains('\n'),
    ensures
        lines_from(line + seq!['\r', '\n'] + rest, 0) == seq![line] + lines_from(rest, 0),
        line.len() > 0 && line.last() == '\r' || lines_from(line + seq!['\n'] + rest, 0) == seq![
            line,
        ] + lines_from(rest, 0),
        line.len() > 0 ==> lines_from(line, 0) == seq![line],
        lines_from(Seq::<char>::empty(), 0) == Seq::<Seq<char>>::empty(),
{
    lemma_line_ends(line, rest);
    let longer = line.push('\r');
    assert forall|i: int| 0 <= i < longer.len() implies longer[i] != '\n' by {
        if i < line.len() {
            assert(longer[i] == line[i]);
        }
    }
    lemma_line_ends(longer, rest);
    assert(line + seq!['\r', '\n'] + rest =~= longer + seq!['\n'] + rest);
    assert(longer.drop_last() =~= line);
    if line.len() > 0 {
        assert forall|i: int| 0 <= i < line.len() implies in_class(
            Class::Unbroken,
            #[trigger] line[i],
        ) by {
            assert(line.contains(line[i]));
        }
        lemma_run_end_is(line, 0, line.len() as int, Class::Unbroken);
        assert(line.subrange(0, line.len() as int) =~= line);
    }
}

proof fn lemma_line_ends(line: Seq<char>, rest: Seq<char>)
    requires
        !line.contains('\n'),
    ensures
        lines_from(line + seq!['\n'] + rest, 0) == seq![without_return(line)] + lines_from(rest, 0),
{
    let head = line + seq!['\n'];
    let s = head + rest;
    let n = line.len() as int;
    assert forall|i: int| 0 <= i < n implies in_class(Class::Unbroken, #[trigger] s[i]) by {
        assert(s[i] == line[i]);
        assert(line.contains(line[i]));
    }
    assert(s[n] == '\n');
    lemma_run_end_is(s, 0, n, Class::Unbroken);
    assert(s.subrange(0, n) =~= line);
    lemma_lines_shifted(head, rest, 0);
}

} // verus!
