//! What holds of word wrap as a whole.

use vstd::prelude::*;

use crate::text::{in_class, join, lemma_run_end, lemma_run_end_is, pieces_from, run_end, Class};
use crate::wrap::{
    all_lines, at_least_one, broken, window, word_placed, words_placed, wrapped, wrapped_each,
    Filling,
};

verus! {

// ---------------------------------------------------------------------------
// Width
// ---------------------------------------------------------------------------

spec fn fits(f: Filling, width: nat) -> bool {
    &&& f.current.len() <= width
    &&& forall|i: int| 0 <= i < f.lines.len() ==> (#[trigger] f.lines[i]).len() <= width
}

proof fn lemma_broken_fits(lines: Seq<Seq<char>>, word: Seq<char>, width: nat)
    requires
        width > 0,
        forall|i: int| 0 <= i < lines.len() ==> (#[trigger] lines[i]).len() <= width,
    ensures
        fits(broken(lines, word, width), width),
    decreases word.len(),
{
    if word.len() > width {
        lemma_broken_fits(lines.push(word.take(width as int)), word.skip(width as int), width);
    }
}

proof fn lemma_placed_fits(words: Seq<Seq<char>>, width: nat)
    requires
        width > 0,
    ensures
        fits(words_placed(words, width), width),
    decreases words.len(),
{
    if words.len() > 0 {
        lemma_placed_fits(words.drop_last(), width);
        let f = words_placed(words.drop_last(), width);
        let word = words.last();
        if word.len() > width {
            let lines = if f.current.len() > 0 {
                f.lines.push(f.current)
            } else {
                f.lines
            };
            lemma_broken_fits(lines, word, width);
        }
    }
}

/// Wrapping gives at least one line, and no line is longer than the width.
pub proof fn law_wrapped_lines_fit(line: Seq<char>, width: nat)
    ensures
        wrapped(line, width).len() >= 1,
        forall|i: int|
            0 <= i < wrapped(line, width).len() ==> (#[trigger] wrapped(line, width)[i]).len()
                <= at_least_one(width),
{
    lemma_placed_fits(pieces_from(line, 0), at_least_one(width));
}

// ---------------------------------------------------------------------------
// Characters
// ---------------------------------------------------------------------------

/// `s` without its spaces.
pub open spec fn unspaced(s: Seq<char>) -> Seq<char>
    decreases s.len(),
{
    if s.len() == 0 {
        seq![]
    } else if s.last() == ' ' {
        unspaced(s.drop_last())
    } else {
        unspaced(s.drop_last()).push(s.last())
    }
}

/// The lines, one after the other, with nothing between them.
pub open spec fn glued(lines: Seq<Seq<char>>) -> Seq<char>
    decreases lines.len(),
{
    if lines.len() == 0 {
        seq![]
    } else {
        glued(lines.drop_last()) + lines.last()
    }
}

proof fn lemma_unspaced_concat(a: Seq<char>, b: Seq<char>)
    ensures
        unspaced(a + b) == unspaced(a) + unspaced(b),
    decreases b.len(),
{
    if b.len() == 0 {
        assert(a + b =~= a);
        assert(unspaced(a) + unspaced(b) =~= unspaced(a));
    } else {
        assert((a + b).drop_last() =~= a + b.drop_last());
        lemma_unspaced_concat(a, b.drop_last());
        assert(unspaced(a + b) =~= unspaced(a) + unspaced(b));
    }
}

proof fn lemma_glued_push(lines: Seq<Seq<char>>, line: Seq<char>)
    ensures
        glued(lines.push(line)) == glued(lines) + line,
{
    assert(lines.push(line).drop_last() =~= lines);
}

spec fn text_of(f: Filling) -> Seq<char> {
    glued(f.lines) + f.current
}

proof fn lemma_broken_text(lines: Seq<Seq<char>>, word: Seq<char>, width: nat)
    ensures
        text_of(broken(lines, word, width)) == glued(lines) + word,
    decreases word.len(),
{
    if width > 0 && word.len() > width {
        let head = word.take(width as int);
        lemma_broken_text(lines.push(head), word.skip(width as int), width);
        lemma_glued_push(lines, head);
        assert(glued(lines) + head + word.skip(width as int) =~= glued(lines) + word);
    }
}

proof fn lemma_word_text(f: Filling, word: Seq<char>, width: nat)
    ensures
        unspaced(text_of(word_placed(f, word, width))) == unspaced(text_of(f)) + unspaced(word),
{
    let g = word_placed(f, word, width);
    lemma_unspaced_concat(text_of(f), word);
    if word.len() > width {
        let lines = if f.current.len() > 0 {
            f.lines.push(f.current)
        } else {
            f.lines
        };
        lemma_broken_text(lines, word, width);
        lemma_glued_push(f.lines, f.current);
        assert(f.current.len() == 0 ==> text_of(f) =~= glued(f.lines));
    } else if f.current.len() == 0 {
        assert(text_of(f) =~= glued(f.lines));
    } else if f.current.len() + 1 + word.len() > width {
        lemma_glued_push(f.lines, f.current);
    } else {
        let spaced = text_of(f).push(' ');
        assert(text_of(g) =~= spaced + word);
        lemma_unspaced_concat(spaced, word);
        assert(spaced.drop_last() =~= text_of(f));
    }
}

proof fn lemma_placed_text(words: Seq<Seq<char>>, width: nat)
    ensures
        unspaced(text_of(words_placed(words, width))) == unspaced(glued(words)),
    decreases words.len(),
{
    if words.len() == 0 {
        assert(text_of(words_placed(words, width)) =~= seq![]);
    } else {
        lemma_placed_text(words.drop_last(), width);
        lemma_word_text(words_placed(words.drop_last(), width), words.last(), width);
        lemma_unspaced_concat(glued(words.drop_last()), words.last());
    }
}

/// Two lists of pieces, one after the other.
proof fn lemma_glued_concat(a: Seq<Seq<char>>, b: Seq<Seq<char>>)
    ensures
        glued(a + b) == glued(a) + glued(b),
    decreases b.len(),
{
    if b.len() == 0 {
        assert(a + b =~= a);
        assert(glued(a) + glued(b) =~= glued(a));
    } else {
        assert((a + b).drop_last() =~= a + b.drop_last());
        lemma_glued_concat(a, b.drop_last());
        assert(glued(a + b) =~= glued(a) + glued(b));
    }
}

proof fn lemma_pieces_text(s: Seq<char>, p: int)
    requires
        0 <= p <= s.len(),
    ensures
        unspaced(glued(pieces_from(s, p))) == unspaced(s.skip(p)),
    decreases s.len() - p,
{
    let b = run_end(s, p, Class::Unspaced);
    lemma_run_end(s, p, Class::Unspaced);
    if b < s.len() {
        let head = s.subrange(p, b);
        let one = seq![head];
        lemma_pieces_text(s, b + 1);
        lemma_glued_concat(one, pieces_from(s, b + 1));
        reveal_with_fuel(glued, 2);
        assert(glued(one) =~= head);
        lemma_unspaced_concat(head, glued(pieces_from(s, b + 1)));
        assert(s.skip(p) =~= head.push(' ') + s.skip(b + 1));
        lemma_unspaced_concat(head.push(' '), s.skip(b + 1));
        assert(head.push(' ').drop_last() =~= head);
    } else {
        let one = seq![s.subrange(p, s.len() as int)];
        reveal_with_fuel(glued, 2);
        assert(glued(one) =~= s.skip(p));
    }
}

/// Wrapping drops or moves nothing but spaces: all other characters stand in
/// the lines, in their order.
pub proof fn law_wrapping_keeps_characters(line: Seq<char>, width: nat)
    ensures
        unspaced(glued(wrapped(line, width))) == unspaced(line),
{
    let words = pieces_from(line, 0);
    let f = words_placed(words, at_least_one(width));
    lemma_placed_text(words, at_least_one(width));
    lemma_pieces_text(line, 0);
    lemma_glued_push(f.lines, f.current);
    assert(line.skip(0) =~= line);
}

// ---------------------------------------------------------------------------
// Words
// ---------------------------------------------------------------------------

/// The words of `s` between spaces, without the empty ones.
pub open spec fn spaced_words(s: Seq<char>) -> Seq<Seq<char>> {
    not_empty(pieces_from(s, 0))
}

/// The texts that are not empty.
pub open spec fn not_empty(list: Seq<Seq<char>>) -> Seq<Seq<char>>
    decreases list.len(),
{
    if list.len() == 0 {
        seq![]
    } else if list.last().len() == 0 {
        not_empty(list.drop_last())
    } else {
        not_empty(list.drop_last()).push(list.last())
    }
}

/// The words of all the lines, one line after the other.
pub open spec fn words_of_all(lines: Seq<Seq<char>>) -> Seq<Seq<char>>
    decreases lines.len(),
{
    if lines.len() == 0 {
        seq![]
    } else {
        words_of_all(lines.drop_last()) + spaced_words(lines.last())
    }
}

proof fn lemma_pieces_unspaced(s: Seq<char>, p: int)
    requires
        0 <= p <= s.len(),
    ensures
        pieces_from(s, p).len() >= 1,
        forall|i: int|
            0 <= i < pieces_from(s, p).len() ==> !(#[trigger] pieces_from(s, p)[i]).contains(' '),
    decreases s.len() - p,
{
    let b = run_end(s, p, Class::Unspaced);
    lemma_run_end(s, p, Class::Unspaced);
    let e = if b < s.len() {
        b
    } else {
        s.len() as int
    };
    let head = s.subrange(p, e);
    assert forall|i: int| 0 <= i < head.len() implies head[i] != ' ' by {
        assert(in_class(Class::Unspaced, s[p + i]));
    }
    if b < s.len() {
        lemma_pieces_unspaced(s, b + 1);
        assert forall|i: int| 0 <= i < pieces_from(s, p).len() implies !(#[trigger] pieces_from(
            s,
            p,
        )[i]).contains(' ') by {
            if i > 0 {
                assert(pieces_from(s, p)[i] == pieces_from(s, b + 1)[i - 1]);
            }
        }
    }
}

/// A word without spaces is its own only piece.
proof fn lemma_one_piece(s: Seq<char>, p: int)
    requires
        0 <= p <= s.len(),
        forall|i: int| p <= i < s.len() ==> s[i] != ' ',
    ensures
        pieces_from(s, p) == seq![s.subrange(p, s.len() as int)],
{
    lemma_run_end_is(s, p, s.len() as int, Class::Unspaced);
}

/// One more word behind a space is one more piece.
proof fn lemma_piece_added(s: Seq<char>, word: Seq<char>, p: int)
    requires
        0 <= p <= s.len(),
        !word.contains(' '),
    ensures
        pieces_from(s.push(' ') + word, p) == pieces_from(s, p).push(word),
    decreases s.len() - p,
{
    let t = s.push(' ') + word;
    let b = run_end(s, p, Class::Unspaced);
    lemma_run_end(s, p, Class::Unspaced);
    assert forall|i: int| p <= i < b implies in_class(Class::Unspaced, #[trigger] t[i]) by {
        assert(t[i] == s[i]);
    }
    assert(!in_class(Class::Unspaced, t[b]));
    lemma_run_end_is(t, p, b, Class::Unspaced);
    assert(t.subrange(p, b) =~= s.subrange(p, b));
    if b < s.len() {
        lemma_piece_added(s, word, b + 1);
        assert(pieces_from(t, p) =~= pieces_from(s, p).push(word));
    } else {
        assert forall|i: int| b + 1 <= i < t.len() implies t[i] != ' ' by {
            assert(t[i] == word[i - b - 1]);
        }
        lemma_one_piece(t, b + 1);
        assert(t.subrange(b + 1, t.len() as int) =~= word);
        assert(pieces_from(t, p) =~= pieces_from(s, p).push(word));
    }
}

proof fn lemma_words_of_all_push(lines: Seq<Seq<char>>, line: Seq<char>)
    ensures
        words_of_all(lines.push(line)) == words_of_all(lines) + spaced_words(line),
{
    assert(lines.push(line).drop_last() =~= lines);
}

proof fn lemma_words_of_word(word: Seq<char>)
    requires
        !word.contains(' '),
    ensures
        spaced_words(word) == (if word.len() == 0 {
            seq![]
        } else {
            seq![word]
        }),
{
    lemma_one_piece(word, 0);
    assert(word.subrange(0, word.len() as int) =~= word);
    let one = seq![word];
    reveal_with_fuel(not_empty, 2);
    assert(not_empty(one) =~= (if word.len() == 0 {
        seq![]
    } else {
        seq![word]
    }));
}

/// `word` cut into parts of `width` characters, the last of which may be
/// shorter. A word that is not longer stays whole.
pub open spec fn parts_of(word: Seq<char>, width: nat) -> Seq<Seq<char>>
    decreases word.len(),
{
    if width > 0 && word.len() > width {
        seq![word.take(width as int)] + parts_of(word.skip(width as int), width)
    } else {
        seq![word]
    }
}

/// The parts of all the words, one word after the other.
pub open spec fn parts_of_all(words: Seq<Seq<char>>, width: nat) -> Seq<Seq<char>>
    decreases words.len(),
{
    if words.len() == 0 {
        seq![]
    } else {
        parts_of_all(words.drop_last(), width) + parts_of(words.last(), width)
    }
}

proof fn lemma_broken_words(lines: Seq<Seq<char>>, word: Seq<char>, width: nat)
    requires
        width > 0,
        word.len() > 0,
        !word.contains(' '),
    ensures
        ({
            let f = broken(lines, word, width);
            words_of_all(f.lines) + spaced_words(f.current) == words_of_all(lines) + parts_of(
                word,
                width,
            )
        }),
    decreases word.len(),
{
    let f = broken(lines, word, width);
    if word.len() > width {
        let head = word.take(width as int);
        let tail = word.skip(width as int);
        assert forall|i: int| 0 <= i < head.len() implies head[i] != ' ' by {
            assert(head[i] == word[i]);
        }
        assert forall|i: int| 0 <= i < tail.len() implies tail[i] != ' ' by {
            assert(tail[i] == word[width + i]);
        }
        lemma_broken_words(lines.push(head), tail, width);
        lemma_words_of_all_push(lines, head);
        lemma_words_of_word(head);
        assert(words_of_all(lines) + seq![head] + parts_of(tail, width) =~= words_of_all(lines)
            + parts_of(word, width));
    } else {
        lemma_words_of_word(word);
    }
}

proof fn lemma_placed_words(words: Seq<Seq<char>>, width: nat)
    requires
        width > 0,
        forall|i: int| 0 <= i < words.len() ==> !(#[trigger] words[i]).contains(' '),
    ensures
        ({
            let f = words_placed(words, width);
            words_of_all(f.lines) + spaced_words(f.current) == parts_of_all(
                not_empty(words),
                width,
            )
        }),
    decreases words.len(),
{
    let f = words_placed(words, width);
    let all = parts_of_all(not_empty(words), width);
    if words.len() == 0 {
        lemma_words_of_word(f.current);
        assert(words_of_all(f.lines) + spaced_words(f.current) =~= all);
    } else {
        let before = words.drop_last();
        let word = words.last();
        let g = words_placed(before, width);
        assert forall|i: int| 0 <= i < before.len() implies !(#[trigger] before[i]).contains(
            ' ',
        ) by {
            assert(before[i] == words[i]);
        }
        lemma_placed_words(before, width);
        assert(words[words.len() - 1] == word);
        lemma_words_of_word(word);
        if word.len() > 0 {
            assert(not_empty(words).drop_last() =~= not_empty(before));
        }
        if word.len() > width {
            let lines = if g.current.len() > 0 {
                g.lines.push(g.current)
            } else {
                g.lines
            };
            lemma_broken_words(lines, word, width);
            lemma_words_of_all_push(g.lines, g.current);
            if g.current.len() == 0 {
                lemma_words_of_word(g.current);
            }
            assert(words_of_all(f.lines) + spaced_words(f.current) =~= all);
        } else if g.current.len() == 0 {
            lemma_words_of_word(g.current);
            assert(words_of_all(f.lines) + spaced_words(f.current) =~= all);
        } else if g.current.len() + 1 + word.len() > width {
            lemma_words_of_all_push(g.lines, g.current);
            assert(words_of_all(f.lines) + spaced_words(f.current) =~= all);
        } else {
            lemma_piece_added(g.current, word, 0);
            let pieces = pieces_from(g.current, 0);
            assert(pieces.push(word).drop_last() =~= pieces);
            assert(words_of_all(f.lines) + spaced_words(f.current) =~= all);
        }
    }
}

/// Lines break between words where possible: the words of the lines are the
/// words of the text, in order, each of them cut only if it is longer than
/// the width.
pub proof fn law_words_cut_if_too_long(line: Seq<char>, width: nat)
    ensures
        words_of_all(wrapped(line, width)) == parts_of_all(
            spaced_words(line),
            at_least_one(width),
        ),
{
    let w = at_least_one(width);
    let words = pieces_from(line, 0);
    let f = words_placed(words, w);
    lemma_pieces_unspaced(line, 0);
    lemma_placed_words(words, w);
    lemma_words_of_all_push(f.lines, f.current);
}

proof fn lemma_part_at(words: Seq<Seq<char>>, width: nat, k: int)
    requires
        0 <= k < words.len(),
        words[k].len() <= width,
    ensures
        parts_of_all(words, width).contains(words[k]),
    decreases words.len(),
{
    let before = parts_of_all(words.drop_last(), width);
    let all = parts_of_all(words, width);
    if k == words.len() - 1 {
        assert(all[before.len() as int] == words[k]);
    } else {
        lemma_part_at(words.drop_last(), width, k);
        let j = choose|j: int| 0 <= j < before.len() && before[j] == words.drop_last()[k];
        assert(all[j] == words[k]);
    }
}

proof fn lemma_word_in_line(lines: Seq<Seq<char>>, word: Seq<char>)
    requires
        words_of_all(lines).contains(word),
    ensures
        exists|i: int| 0 <= i < lines.len() && spaced_words(#[trigger] lines[i]).contains(word),
    decreases lines.len(),
{
    let before = words_of_all(lines.drop_last());
    let all = words_of_all(lines);
    let j = choose|j: int| 0 <= j < all.len() && all[j] == word;
    if j < before.len() {
        assert(before[j] == word);
        lemma_word_in_line(lines.drop_last(), word);
        let i = choose|i: int|
            0 <= i < lines.drop_last().len() && spaced_words(
                #[trigger] lines.drop_last()[i],
            ).contains(word);
        assert(lines[i] == lines.drop_last()[i]);
    } else {
        let n = lines.len() - 1;
        assert(spaced_words(lines[n])[j - before.len()] == word);
    }
}

/// Each word that is not longer than the width is a whole word of one of the
/// lines, whatever the other words are.
pub proof fn law_words_stay_whole(line: Seq<char>, width: nat, k: int)
    requires
        0 <= k < spaced_words(line).len(),
        spaced_words(line)[k].len() <= at_least_one(width),
    ensures
        exists|i: int|
            0 <= i < wrapped(line, width).len() && spaced_words(
                #[trigger] wrapped(line, width)[i],
            ).contains(spaced_words(line)[k]),
{
    law_words_cut_if_too_long(line, width);
    lemma_part_at(spaced_words(line), at_least_one(width), k);
    lemma_word_in_line(wrapped(line, width), spaced_words(line)[k]);
}

// ---------------------------------------------------------------------------
// Short lines
// ---------------------------------------------------------------------------

/// Where the spaces at the beginning of `s` end.
pub open spec fn leading_spaces(s: Seq<char>) -> nat
    decreases s.len(),
{
    if s.len() > 0 && s[0] == ' ' {
        1 + leading_spaces(s.skip(1))
    } else {
        0
    }
}

proof fn lemma_join_pieces(s: Seq<char>, p: int)
    requires
        0 <= p <= s.len(),
    ensures
        join(pieces_from(s, p)) == s.skip(p),
    decreases s.len() - p,
{
    let b = run_end(s, p, Class::Unspaced);
    lemma_run_end(s, p, Class::Unspaced);
    if b < s.len() {
        lemma_join_pieces(s, b + 1);
        lemma_pieces_unspaced(s, b + 1);
        lemma_join_cons(s.subrange(p, b), pieces_from(s, b + 1));
        assert(s.skip(p) =~= s.subrange(p, b).push(' ') + s.skip(b + 1));
    } else {
        assert(s.subrange(p, s.len() as int) =~= s.skip(p));
    }
}

proof fn lemma_join_cons(head: Seq<char>, tail: Seq<Seq<char>>)
    requires
        tail.len() >= 1,
    ensures
        join(seq![head] + tail) == head.push(' ') + join(tail),
    decreases tail.len(),
{
    let all = seq![head] + tail;
    assert(all.drop_last() =~= seq![head] + tail.drop_last());
    assert(all.last() == tail.last());
    if tail.len() > 1 {
        lemma_join_cons(head, tail.drop_last());
        assert(join(all) =~= head.push(' ') + join(tail));
    } else {
        assert(all.drop_last() =~= seq![head]);
        assert(join(all.drop_last()) == head);
    }
}

proof fn lemma_leading_spaces(s: Seq<char>)
    ensures
        leading_spaces(s) <= s.len(),
        forall|i: int| 0 <= i < leading_spaces(s) ==> s[i] == ' ',
        leading_spaces(s) < s.len() ==> s[leading_spaces(s) as int] != ' ',
    decreases s.len(),
{
    if s.len() > 0 && s[0] == ' ' {
        let rest = s.skip(1);
        lemma_leading_spaces(rest);
        assert forall|i: int| 0 <= i < leading_spaces(s) implies s[i] == ' ' by {
            if i > 0 {
                assert(rest[i - 1] == s[i]);
            }
        }
        if leading_spaces(s) < s.len() {
            assert(rest[leading_spaces(rest) as int] == s[leading_spaces(s) as int]);
        }
    }
}

proof fn lemma_leading_spaces_is(s: Seq<char>, n: nat)
    requires
        n <= s.len(),
        forall|i: int| 0 <= i < n ==> s[i] == ' ',
        n < s.len() ==> s[n as int] != ' ',
    ensures
        leading_spaces(s) == n,
{
    lemma_leading_spaces(s);
    if leading_spaces(s) < n {
        assert(s[leading_spaces(s) as int] == ' ');
    }
}

/// `s` without the spaces at its beginning.
spec fn unindented(s: Seq<char>) -> Seq<char> {
    s.skip(leading_spaces(s) as int)
}

proof fn lemma_unindented_word(word: Seq<char>)
    requires
        !word.contains(' '),
    ensures
        unindented(word) == word,
{
    if word.len() > 0 {
        assert(word.contains(word[0]));
    }
    lemma_leading_spaces_is(word, 0);
    assert(word.skip(0) =~= word);
}

proof fn lemma_unindented_added(s: Seq<char>, word: Seq<char>)
    requires
        !word.contains(' '),
    ensures
        unindented(s).len() <= s.len(),
        unindented(s.push(' ') + word) == (if unindented(s).len() == 0 {
            word
        } else {
            unindented(s).push(' ') + word
        }),
{
    let t = s.push(' ') + word;
    let n = leading_spaces(s);
    lemma_leading_spaces(s);
    if n == s.len() {
        assert forall|i: int| 0 <= i < n + 1 implies t[i] == ' ' by {
            if i < n {
                assert(t[i] == s[i]);
            }
        }
        if n + 1 < t.len() {
            assert(t[n as int + 1] == word[0]);
            assert(word.contains(word[0]));
        }
        lemma_leading_spaces_is(t, n + 1);
        assert(t.skip(n as int + 1) =~= word);
    } else {
        assert forall|i: int| 0 <= i < n implies t[i] == ' ' by {
            assert(t[i] == s[i]);
        }
        assert(t[n as int] == s[n as int]);
        lemma_leading_spaces_is(t, n);
        assert(t.skip(n as int) =~= s.skip(n as int).push(' ') + word);
    }
}

proof fn lemma_short(words: Seq<Seq<char>>, width: nat)
    requires
        words.len() >= 1,
        join(words).len() <= width,
        forall|i: int| 0 <= i < words.len() ==> !(#[trigger] words[i]).contains(' '),
    ensures
        words_placed(words, width) == (Filling {
            lines: seq![],
            current: unindented(join(words)),
        }),
    decreases words.len(),
{
    let word = words.last();
    let before = words.drop_last();
    assert(words[words.len() - 1] == word);
    if words.len() == 1 {
        assert(before =~= seq![]);
        assert(words_placed(before, width) == (Filling { lines: seq![], current: seq![] }));
        lemma_unindented_word(word);
    } else {
        assert forall|i: int| 0 <= i < before.len() implies !(#[trigger] before[i]).contains(
            ' ',
        ) by {
            assert(before[i] == words[i]);
        }
        lemma_short(before, width);
        lemma_unindented_added(join(before), word);
    }
}

/// A line that is not longer than the width stays one line, without the
/// spaces at its beginning.
pub proof fn law_short_line(line: Seq<char>, width: nat)
    requires
        line.len() <= at_least_one(width),
    ensures
        wrapped(line, width) == seq![line.skip(leading_spaces(line) as int)],
{
    lemma_pieces_unspaced(line, 0);
    lemma_join_pieces(line, 0);
    assert(line.skip(0) =~= line);
    lemma_short(pieces_from(line, 0), at_least_one(width));
    assert(wrapped(line, width) =~= seq![line.skip(leading_spaces(line) as int)]);
}

// ---------------------------------------------------------------------------
// Filling
// ---------------------------------------------------------------------------

/// The length of the first word of `s`: how many characters stand before the
/// first space.
pub open spec fn first_word_len(s: Seq<char>) -> nat
    decreases s.len(),
{
    if s.len() == 0 || s[0] == ' ' {
        0
    } else {
        1 + first_word_len(s.skip(1))
    }
}

proof fn lemma_first_word(s: Seq<char>, n: nat)
    requires
        n <= s.len(),
        forall|i: int| 0 <= i < n ==> #[trigger] s[i] != ' ',
        n < s.len() ==> s[n as int] == ' ',
    ensures
        first_word_len(s) == n,
    decreases n,
{
    if n > 0 {
        assert(s[0] != ' ');
        lemma_first_word(s.skip(1), (n - 1) as nat);
    }
}

proof fn lemma_first_word_is(s: Seq<char>)
    ensures
        first_word_len(s) <= s.len(),
        forall|i: int| 0 <= i < first_word_len(s) ==> #[trigger] s[i] != ' ',
        first_word_len(s) < s.len() ==> s[first_word_len(s) as int] == ' ',
    decreases s.len(),
{
    if s.len() > 0 && s[0] != ' ' {
        let rest = s.skip(1);
        lemma_first_word_is(rest);
        assert forall|i: int| 0 <= i < first_word_len(s) implies #[trigger] s[i] != ' ' by {
            if i > 0 {
                assert(rest[i - 1] == s[i]);
            }
        }
    }
}

proof fn lemma_first_word_kept(s: Seq<char>, word: Seq<char>)
    ensures
        first_word_len(s.push(' ') + word) == first_word_len(s),
{
    let t = s.push(' ') + word;
    lemma_first_word_is(s);
    let n = first_word_len(s);
    assert forall|i: int| 0 <= i < n implies #[trigger] t[i] != ' ' by {
        assert(t[i] == s[i]);
    }
    assert(n < s.len() ==> t[n as int] == s[n as int]);
    lemma_first_word(t, n);
}

proof fn lemma_first_word_whole(word: Seq<char>)
    requires
        !word.contains(' '),
    ensures
        first_word_len(word) == word.len(),
{
    assert forall|i: int| 0 <= i < word.len() implies #[trigger] word[i] != ' ' by {
        assert(word.contains(word[i]));
    }
    lemma_first_word(word, word.len());
}

/// Whether the first word of each line did not fit on the line before it.
spec fn tight(lines: Seq<Seq<char>>, width: nat) -> bool {
    forall|i: int|
        0 <= i && i + 1 < lines.len() ==> (#[trigger] lines[i]).len() + 1 + first_word_len(
            lines[i + 1],
        ) > width
}

proof fn lemma_tight_push(lines: Seq<Seq<char>>, line: Seq<char>, width: nat)
    requires
        tight(lines, width),
        lines.len() > 0 ==> lines.last().len() + 1 + first_word_len(line) > width,
    ensures
        tight(lines.push(line), width),
{
    let all = lines.push(line);
    assert forall|i: int| 0 <= i && i + 1 < all.len() implies (#[trigger] all[i]).len() + 1
        + first_word_len(all[i + 1]) > width by {
        if i + 1 < lines.len() {
            assert(lines[i].len() + 1 + first_word_len(lines[i + 1]) > width);
        }
    }
}

proof fn lemma_tight_lines(lines: Seq<Seq<char>>, line: Seq<char>, width: nat)
    requires
        tight(lines.push(line), width),
    ensures
        tight(lines, width),
        lines.len() > 0 ==> lines.last().len() + 1 + first_word_len(line) > width,
{
    let all = lines.push(line);
    assert forall|i: int| 0 <= i && i + 1 < lines.len() implies (#[trigger] lines[i]).len() + 1
        + first_word_len(lines[i + 1]) > width by {
        assert(all[i].len() + 1 + first_word_len(all[i + 1]) > width);
    }
    if lines.len() > 0 {
        let n = lines.len() - 1;
        assert(all[n].len() + 1 + first_word_len(all[n + 1]) > width);
    }
}

proof fn lemma_broken_tight(lines: Seq<Seq<char>>, word: Seq<char>, width: nat, full: bool)
    requires
        width > 0,
        !word.contains(' '),
        tight(lines, width),
        full ==> (lines.len() > 0 ==> lines.last().len() == width),
        !full ==> word.len() >= width,
    ensures
        ({
            let f = broken(lines, word, width);
            tight(f.lines.push(f.current), width)
        }),
    decreases word.len(),
{
    if word.len() > width {
        let head = word.take(width as int);
        let tail = word.skip(width as int);
        assert forall|i: int| 0 <= i < head.len() implies head[i] != ' ' by {
            assert(head[i] == word[i]);
        }
        assert forall|i: int| 0 <= i < tail.len() implies tail[i] != ' ' by {
            assert(tail[i] == word[width + i]);
        }
        lemma_first_word_whole(head);
        lemma_tight_push(lines, head, width);
        lemma_broken_tight(lines.push(head), tail, width, true);
    } else {
        lemma_first_word_whole(word);
        lemma_tight_push(lines, word, width);
    }
}

proof fn lemma_placed_tight(words: Seq<Seq<char>>, width: nat)
    requires
        width > 0,
        forall|i: int| 0 <= i < words.len() ==> !(#[trigger] words[i]).contains(' '),
    ensures
        ({
            let f = words_placed(words, width);
            tight(f.lines.push(f.current), width)
        }),
    decreases words.len(),
{
    if words.len() > 0 {
        let before = words.drop_last();
        let word = words.last();
        let g = words_placed(before, width);
        assert(words[words.len() - 1] == word);
        assert forall|i: int| 0 <= i < before.len() implies !(#[trigger] before[i]).contains(
            ' ',
        ) by {
            assert(before[i] == words[i]);
        }
        lemma_placed_tight(before, width);
        lemma_tight_lines(g.lines, g.current, width);
        lemma_first_word_whole(word);
        if word.len() > width {
            let lines = if g.current.len() > 0 {
                g.lines.push(g.current)
            } else {
                g.lines
            };
            lemma_broken_tight(lines, word, width, false);
        } else if g.current.len() == 0 {
            lemma_tight_push(g.lines, word, width);
        } else if g.current.len() + 1 + word.len() > width {
            lemma_tight_push(g.lines.push(g.current), word, width);
        } else {
            lemma_first_word_kept(g.current, word);
            lemma_tight_push(g.lines, g.current.push(' ') + word, width);
        }
    }
}

/// Lines are filled as far as they can be: the first word of each line, or
/// what is first of it, would not have fitted on the line before.
pub proof fn law_lines_are_filled(line: Seq<char>, width: nat, i: int)
    requires
        0 <= i,
        i + 1 < wrapped(line, width).len(),
    ensures
        wrapped(line, width)[i].len() + 1 + first_word_len(wrapped(line, width)[i + 1])
            > at_least_one(width),
{
    let w = at_least_one(width);
    let words = pieces_from(line, 0);
    lemma_pieces_unspaced(line, 0);
    lemma_placed_tight(words, w);
    let lines = wrapped(line, width);
    assert(lines[i].len() + 1 + first_word_len(lines[i + 1]) > w);
}

// ---------------------------------------------------------------------------
// Lines as parts of the text
// ---------------------------------------------------------------------------

/// So many spaces.
pub open spec fn spaces(n: nat) -> Seq<char> {
    Seq::new(n, |i: int| ' ')
}

/// The lines one after the other, each behind as many spaces as `gaps` says.
pub open spec fn woven(gaps: Seq<nat>, lines: Seq<Seq<char>>) -> Seq<char>
    decreases lines.len(),
{
    if lines.len() == 0 {
        seq![]
    } else {
        woven(gaps, lines.drop_last()) + spaces(gaps[lines.len() - 1]) + lines.last()
    }
}

/// Whether more than one space is left out before a line only where the line
/// before it is full.
pub open spec fn no_space_wasted(gaps: Seq<nat>, lines: Seq<Seq<char>>, width: nat) -> bool {
    forall|i: int|
        0 < i < lines.len() && #[trigger] gaps[i] >= 2 ==> lines[i - 1].len() >= width
}

proof fn lemma_woven_gaps(gaps: Seq<nat>, more: Seq<nat>, lines: Seq<Seq<char>>)
    requires
        lines.len() <= gaps.len(),
        lines.len() <= more.len(),
        forall|i: int| 0 <= i < lines.len() ==> gaps[i] == more[i],
    ensures
        woven(gaps, lines) == woven(more, lines),
    decreases lines.len(),
{
    if lines.len() > 0 {
        lemma_woven_gaps(gaps, more, lines.drop_last());
    }
}

proof fn lemma_woven_push(gaps: Seq<nat>, lines: Seq<Seq<char>>, gap: nat, line: Seq<char>)
    requires
        gaps.len() == lines.len(),
    ensures
        woven(gaps.push(gap), lines.push(line)) == woven(gaps, lines) + spaces(gap) + line,
{
    assert(lines.push(line).drop_last() =~= lines);
    lemma_woven_gaps(gaps, gaps.push(gap), lines);
}

/// `word`, cut where it must be, behind the lines and `gap` spaces.
proof fn lemma_broken_woven(
    gaps: Seq<nat>,
    lines: Seq<Seq<char>>,
    gap: nat,
    word: Seq<char>,
    width: nat,
) -> (all: Seq<nat>)
    requires
        gaps.len() == lines.len(),
        no_space_wasted(gaps, lines, width),
        gap >= 2 && lines.len() > 0 ==> lines.last().len() >= width,
    ensures
        ({
            let f = broken(lines, word, width);
            &&& all.len() == f.lines.len() + 1
            &&& woven(all, f.lines.push(f.current)) == woven(gaps, lines) + spaces(gap) + word
            &&& no_space_wasted(all, f.lines.push(f.current), width)
        }),
    decreases word.len(),
{
    if width > 0 && word.len() > width {
        let head = word.take(width as int);
        let tail = word.skip(width as int);
        lemma_no_space_wasted(gaps, lines, gap, head, width);
        let more = lemma_broken_woven(gaps.push(gap), lines.push(head), 0, tail, width);
        lemma_woven_push(gaps, lines, gap, head);
        let start = woven(gaps, lines) + spaces(gap);
        assert(start + head + spaces(0) + tail =~= start + word);
        more
    } else {
        lemma_no_space_wasted(gaps, lines, gap, word, width);
        lemma_woven_push(gaps, lines, gap, word);
        gaps.push(gap)
    }
}

proof fn lemma_no_space_wasted(
    gaps: Seq<nat>,
    lines: Seq<Seq<char>>,
    gap: nat,
    line: Seq<char>,
    width: nat,
)
    requires
        gaps.len() == lines.len(),
        no_space_wasted(gaps, lines, width),
        gap >= 2 && lines.len() > 0 ==> lines.last().len() >= width,
    ensures
        no_space_wasted(gaps.push(gap), lines.push(line), width),
{
    let all = lines.push(line);
    let more = gaps.push(gap);
    assert forall|i: int| 0 < i < all.len() && #[trigger] more[i] >= 2 implies all[i - 1].len()
        >= width by {
        if i < lines.len() {
            assert(gaps[i] >= 2);
        }
    }
}

proof fn lemma_placed_woven(words: Seq<Seq<char>>, width: nat) -> (all: Seq<nat>)
    requires
        width > 0,
        words.len() > 0,
        forall|i: int| 0 <= i < words.len() ==> !(#[trigger] words[i]).contains(' '),
    ensures
        ({
            let f = words_placed(words, width);
            &&& all.len() == f.lines.len() + 1
            &&& woven(all, f.lines.push(f.current)) == join(words)
            &&& no_space_wasted(all, f.lines.push(f.current), width)
        }),
    decreases words.len(),
{
    let word = words.last();
    let before = words.drop_last();
    let g = words_placed(before, width);
    let none = Seq::<nat>::empty();
    let no_lines = Seq::<Seq<char>>::empty();
    if words.len() == 1 {
        assert(before =~= seq![]);
        assert(words[0] == word);
        assert(woven(none, no_lines) + spaces(0) + word =~= word);
        if word.len() > width {
            lemma_broken_woven(none, no_lines, 0, word, width)
        } else {
            lemma_woven_push(none, no_lines, 0, word);
            none.push(0)
        }
    } else {
        assert forall|i: int| 0 <= i < before.len() implies !(#[trigger] before[i]).contains(
            ' ',
        ) by {
            assert(before[i] == words[i]);
        }
        let old = lemma_placed_woven(before, width);
        lemma_placed_tight(before, width);
        lemma_tight_lines(g.lines, g.current, width);
        let gaps = old.drop_last();
        let gap = old.last();
        let start = woven(gaps, g.lines);
        assert(old =~= gaps.push(gap));
        lemma_woven_push(gaps, g.lines, gap, g.current);
        lemma_no_space_wasted_before(gaps, g.lines, gap, g.current, width);
        let text = join(before);
        assert(text == start + spaces(gap) + g.current);
        assert(join(words) == text.push(' ') + word);
        if g.current.len() == 0 {
            assert(start + spaces(gap + 1) + word =~= text.push(' ') + word);
            if word.len() > width {
                lemma_broken_woven(gaps, g.lines, gap + 1, word, width)
            } else {
                lemma_woven_push(gaps, g.lines, gap + 1, word);
                lemma_no_space_wasted(gaps, g.lines, gap + 1, word, width);
                gaps.push(gap + 1)
            }
        } else if word.len() > width {
            assert(text + spaces(1) + word =~= text.push(' ') + word);
            lemma_broken_woven(old, g.lines.push(g.current), 1, word, width)
        } else if g.current.len() + 1 + word.len() > width {
            assert(text + spaces(1) + word =~= text.push(' ') + word);
            lemma_woven_push(old, g.lines.push(g.current), 1, word);
            lemma_no_space_wasted(old, g.lines.push(g.current), 1, word, width);
            old.push(1)
        } else {
            let longer = g.current.push(' ') + word;
            assert(start + spaces(gap) + longer =~= text.push(' ') + word);
            lemma_woven_push(gaps, g.lines, gap, longer);
            lemma_no_space_wasted(gaps, g.lines, gap, longer, width);
            gaps.push(gap)
        }
    }
}

proof fn lemma_no_space_wasted_before(
    gaps: Seq<nat>,
    lines: Seq<Seq<char>>,
    gap: nat,
    line: Seq<char>,
    width: nat,
)
    requires
        gaps.len() == lines.len(),
        no_space_wasted(gaps.push(gap), lines.push(line), width),
    ensures
        no_space_wasted(gaps, lines, width),
        gap >= 2 && lines.len() > 0 ==> lines.last().len() >= width,
{
    let all = lines.push(line);
    let more = gaps.push(gap);
    assert forall|i: int| 0 < i < lines.len() && #[trigger] gaps[i] >= 2 implies lines[i
        - 1].len() >= width by {
        assert(more[i] >= 2);
        assert(all[i - 1].len() >= width);
    }
    if gap >= 2 && lines.len() > 0 {
        assert(more[lines.len() as int] >= 2);
        assert(all[lines.len() - 1].len() >= width);
    }
}

proof fn lemma_broken_starts(lines: Seq<Seq<char>>, word: Seq<char>, width: nat)
    requires
        width > 0,
        !word.contains(' '),
        no_line_indented(lines),
    ensures
        ({
            let f = broken(lines, word, width);
            no_line_indented(f.lines.push(f.current))
        }),
    decreases word.len(),
{
    if word.len() > 0 {
        assert(word.contains(word[0]));
    }
    if word.len() > width {
        let head = word.take(width as int);
        let tail = word.skip(width as int);
        assert forall|i: int| 0 <= i < tail.len() implies tail[i] != ' ' by {
            assert(tail[i] == word[width + i]);
        }
        assert(head[0] == word[0]);
        lemma_broken_starts(lines.push(head), tail, width);
    }
}

/// Whether no line begins with a space.
spec fn no_line_indented(lines: Seq<Seq<char>>) -> bool {
    forall|i: int| 0 <= i < lines.len() && (#[trigger] lines[i]).len() > 0 ==> lines[i][0] != ' '
}

proof fn lemma_placed_starts(words: Seq<Seq<char>>, width: nat)
    requires
        width > 0,
        forall|i: int| 0 <= i < words.len() ==> !(#[trigger] words[i]).contains(' '),
    ensures
        ({
            let f = words_placed(words, width);
            no_line_indented(f.lines.push(f.current))
        }),
    decreases words.len(),
{
    if words.len() > 0 {
        let before = words.drop_last();
        let word = words.last();
        let g = words_placed(before, width);
        let f = words_placed(words, width);
        assert(words[words.len() - 1] == word);
        assert forall|i: int| 0 <= i < before.len() implies !(#[trigger] before[i]).contains(
            ' ',
        ) by {
            assert(before[i] == words[i]);
        }
        lemma_placed_starts(before, width);
        let all = g.lines.push(g.current);
        assert forall|i: int| 0 <= i < g.lines.len() && (#[trigger] g.lines[i]).len() > 0 implies
            g.lines[i][0] != ' ' by {
            assert(all[i] == g.lines[i]);
        }
        assert(all[g.lines.len() as int] == g.current);
        if word.len() > 0 {
            assert(word.contains(word[0]));
        }
        if word.len() > width {
            let lines = if g.current.len() > 0 {
                all
            } else {
                g.lines
            };
            lemma_broken_starts(lines, word, width);
        } else if g.current.len() > 0 {
            assert((g.current.push(' ') + word)[0] == g.current[0]);
        }
    }
}

/// No line begins with a space.
pub proof fn law_no_line_indented(line: Seq<char>, width: nat, i: int)
    requires
        0 <= i < wrapped(line, width).len(),
        wrapped(line, width)[i].len() > 0,
    ensures
        wrapped(line, width)[i][0] != ' ',
{
    lemma_pieces_unspaced(line, 0);
    lemma_placed_starts(pieces_from(line, 0), at_least_one(width));
}

/// The lines are parts of the text as they stand there, in their order, with
/// nothing but spaces left out before each of them. Behind the first line, no
/// more than one space is left out unless the line before is full.
pub proof fn law_lines_are_parts(line: Seq<char>, width: nat)
    ensures
        exists|gaps: Seq<nat>|
            gaps.len() == wrapped(line, width).len() && #[trigger] woven(
                gaps,
                wrapped(line, width),
            ) == line && no_space_wasted(gaps, wrapped(line, width), at_least_one(width)),
{
    let words = pieces_from(line, 0);
    lemma_pieces_unspaced(line, 0);
    lemma_join_pieces(line, 0);
    assert(line.skip(0) =~= line);
    let gaps = lemma_placed_woven(words, at_least_one(width));
    assert(woven(gaps, wrapped(line, width)) == line);
}

// ---------------------------------------------------------------------------
// Windows
// ---------------------------------------------------------------------------

/// The lines of blocks are the lines of each block in turn.
pub proof fn law_lines_of_blocks(
    first: Seq<Seq<Seq<char>>>,
    second: Seq<Seq<Seq<char>>>,
    block: Seq<Seq<char>>,
)
    ensures
        all_lines(Seq::<Seq<Seq<char>>>::empty()) == Seq::<Seq<char>>::empty(),
        all_lines(seq![block]) == block,
        all_lines(first + second) == all_lines(first) + all_lines(second),
    decreases second.len(),
{
    reveal_with_fuel(all_lines, 2);
    assert(seq![block].drop_last() =~= seq![]);
    assert(all_lines(seq![block]) =~= block);
    if second.len() == 0 {
        assert(first + second =~= first);
        assert(all_lines(first) + all_lines(second) =~= all_lines(first));
    } else {
        assert((first + second).drop_last() =~= first + second.drop_last());
        law_lines_of_blocks(first, second.drop_last(), block);
        assert(all_lines(first + second) =~= all_lines(first) + all_lines(second));
    }
}

/// A window has as many lines as it is high, or as there are from its start
/// on if these are fewer, and shows them as they are.
pub proof fn law_window(lines: Seq<Seq<char>>, start: nat, height: nat, i: int)
    ensures
        start + height <= lines.len() ==> window(lines, start, height).len() == height,
        start <= lines.len() < start + height ==> window(lines, start, height).len()
            == lines.len() - start,
        start > lines.len() ==> window(lines, start, height).len() == 0,
        0 <= i < window(lines, start, height).len() ==> window(lines, start, height)[i]
            == lines[start + i],
{
}

/// Each line of the output is wrapped by itself.
pub proof fn law_each_wrapped(output: Seq<Seq<char>>, width: nat, i: int)
    requires
        0 <= i < output.len(),
    ensures
        wrapped_each(output, width).len() == output.len(),
        wrapped_each(output, width)[i] == wrapped(output[i], width),
{
}

} // verus!
