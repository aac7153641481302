//! Word wrap, and a cache of its results.

use vstd::prelude::*;

use crate::text::{
    chars_of, copy_between, lemma_run_end, pieces_from, skip_run, string_between, Class,
};

verus! {

// ---------------------------------------------------------------------------
// Wrapping one line
// ---------------------------------------------------------------------------

/// The lines that are finished, and the one that is being filled.
pub struct Filling {
    pub lines: Seq<Seq<char>>,
    pub current: Seq<char>,
}

/// `word` cut into lines of `width` characters, the last of which stays open.
pub open spec fn broken(lines: Seq<Seq<char>>, word: Seq<char>, width: nat) -> Filling
    decreases word.len(),
{
    if width > 0 && word.len() > width {
        broken(lines.push(word.take(width as int)), word.skip(width as int), width)
    } else {
        Filling { lines, current: word }
    }
}

/// What is filled after one more word: a word that fits on no line is cut; one
/// that does not fit behind the others starts a new line.
pub open spec fn word_placed(f: Filling, word: Seq<char>, width: nat) -> Filling {
    if word.len() > width {
        broken(
            if f.current.len() > 0 {
                f.lines.push(f.current)
            } else {
                f.lines
            },
            word,
            width,
        )
    } else if f.current.len() == 0 {
        Filling { lines: f.lines, current: word }
    } else if f.current.len() + 1 + word.len() > width {
        Filling { lines: f.lines.push(f.current), current: word }
    } else {
        Filling { lines: f.lines, current: f.current.push(' ') + word }
    }
}

/// What is filled after the words, one after the other.
pub open spec fn words_placed(words: Seq<Seq<char>>, width: nat) -> Filling
    decreases words.len(),
{
    if words.len() == 0 {
        Filling { lines: seq![], current: seq![] }
    } else {
        word_placed(words_placed(words.drop_last(), width), words.last(), width)
    }
}

/// The width that is wrapped to when `width` is asked for.
pub open spec fn at_least_one(width: nat) -> nat {
    if width == 0 {
        1
    } else {
        width
    }
}

/// The lines that `line` is wrapped to.
pub open spec fn wrapped(line: Seq<char>, width: nat) -> Seq<Seq<char>> {
    let f = words_placed(pieces_from(line, 0), at_least_one(width));
    f.lines.push(f.current)
}

/// Adds one word to the line `current`, moving full lines to `result`.
pub fn wrap_word(result: &mut Vec<String>, current: &mut Vec<char>, word: &[char], width: usize)
    requires
        width > 0,
    ensures
        (Filling { lines: final(result).deep_view(), current: final(current)@ }) == word_placed(
            Filling { lines: old(result).deep_view(), current: old(current)@ },
            word@,
            width as nat,
        ),
{
    let ghost f0 = Filling { lines: result.deep_view(), current: current@ };
    if word.len() > width {
        if current.len() > 0 {
            push_line(result, current);
        }
        let ghost lines1 = result.deep_view();
        let mut from: usize = 0;
        assert(word@.skip(0) =~= word@);
        while word.len() - from > width
            invariant
                from <= word@.len(),
                width > 0,
                broken(lines1, word@, width as nat) == broken(
                    result.deep_view(),
                    word@.skip(from as int),
                    width as nat,
                ),
            decreases word@.len() - from,
        {
            let ghost before = result.deep_view();
            let line = string_between(word, from, from + width);
            result.push(line);
            assert(result.deep_view() =~= before.push(line@));
            assert(word@.skip(from as int).take(width as int) =~= line@);
            assert(word@.skip(from as int).skip(width as int) =~= word@.skip(from + width));
            from = from + width;
        }
        *current = copy_between(word, from, word.len());
        assert(current@ =~= word@.skip(from as int));
        return;
    }
    let fits = current.len() == 0 || (current.len() < width && word.len() < width - current.len());
    if !fits {
        push_line(result, current);
    } else if current.len() > 0 {
        current.push(' ');
    }
    let ghost start = current@;
    let mut i: usize = 0;
    while i < word.len()
        invariant
            i <= word@.len(),
            current@ == start + word@.take(i as int),
        decreases word@.len() - i,
    {
        current.push(word[i]);
        assert(start + word@.take(i + 1) =~= (start + word@.take(i as int)).push(word@[i as int]));
        i = i + 1;
    }
    assert(word@.take(i as int) =~= word@);
    assert(current@ =~= word_placed(f0, word@, width as nat).current);
    assert(result.deep_view() =~= word_placed(f0, word@, width as nat).lines);
}

/// Moves the line `current` to `result`.
fn push_line(result: &mut Vec<String>, current: &mut Vec<char>)
    ensures
        final(result).deep_view() == old(result).deep_view().push(old(current)@),
        final(current)@ == Seq::<char>::empty(),
{
    let line = string_between(current.as_slice(), 0, current.len());
    assert(line@ =~= current@);
    result.push(line);
    assert(result.deep_view() =~= old(result).deep_view().push(line@));
    current.clear();
}

/// Wraps a single line of text to `width` columns, breaking on word (space)
/// boundaries where possible. A single word longer than `width` is hard-broken
/// mid-word since there's no boundary to break on. Always returns at least one
/// (possibly empty) line.
pub fn wrap_line(line: &str, width: usize) -> (r: Vec<String>)
    ensures
        r.deep_view() == wrapped(line@, width as nat),
{
    let width: usize = if width == 0 {
        1
    } else {
        width
    };
    let v = chars_of(line);
    let ghost all = pieces_from(v@, 0);
    let mut result: Vec<String> = Vec::new();
    let mut current: Vec<char> = Vec::new();
    let mut p: usize = 0;
    let ghost mut done = Seq::<Seq<char>>::empty();
    assert(result.deep_view() =~= seq![]);
    assert(all =~= done + pieces_from(v@, 0));
    loop
        invariant_except_break
            p <= v@.len(),
            width > 0,
            all == done + pieces_from(v@, p as int),
            words_placed(done, width as nat) == (Filling {
                lines: result.deep_view(),
                current: current@,
            }),
        ensures
            words_placed(all, width as nat) == (Filling {
                lines: result.deep_view(),
                current: current@,
            }),
        decreases v@.len() - p,
    {
        let b = skip_run(v.as_slice(), p, Class::Unspaced);
        let word = copy_between(v.as_slice(), p, b);
        wrap_word(&mut result, &mut current, word.as_slice(), width);
        proof {
            lemma_run_end(v@, p as int, Class::Unspaced);
            assert(done.push(word@).drop_last() =~= done);
            done = done.push(word@);
        }
        if b >= v.len() {
            assert(all =~= done);
            break;
        }
        assert(all =~= done + pieces_from(v@, b + 1));
        p = b + 1;
    }
    push_line(&mut result, &mut current);
    result
}

// ---------------------------------------------------------------------------
// The cache
// ---------------------------------------------------------------------------

/// All the lines of the blocks, one after the other.
pub open spec fn all_lines(blocks: Seq<Seq<Seq<char>>>) -> Seq<Seq<char>>
    decreases blocks.len(),
{
    if blocks.len() == 0 {
        seq![]
    } else {
        all_lines(blocks.drop_last()) + blocks.last()
    }
}

/// Up to `height` of the lines, from line `start` on.
pub open spec fn window(lines: Seq<Seq<char>>, start: nat, height: nat) -> Seq<Seq<char>> {
    let from = if start <= lines.len() {
        start
    } else {
        lines.len()
    };
    let to = if start + height <= lines.len() {
        start + height
    } else {
        lines.len()
    };
    lines.subrange(from as int, to as int)
}

/// Each of the lines, wrapped.
pub open spec fn wrapped_each(output: Seq<Seq<char>>, width: nat) -> Seq<Seq<Seq<char>>> {
    output.map_values(|line: Seq<char>| wrapped(line, width))
}

/// Caches word-wrapped output so a redraw only touches the raw lines that are
/// actually visible, instead of re-wrapping the entire scrollback every
/// frame. Wrapping a raw line happens once per raw line (on `push`) or, when
/// the width itself changes, once for the whole scrollback (on `rebuild`).
pub struct WrapCache {
    /// Width this cache was last built for. 0 means "not built yet".
    pub width: u16,
    /// Wrapped sub-lines per raw output line, in the order of the output.
    pub wrapped: Vec<Vec<String>>,
    /// `prefix[i]` is how many wrapped lines the first `i` raw lines have
    /// together, so it has one more entry than `wrapped`. A sum of `usize`
    /// many counts, each a `usize`, always fits in `u128`.
    pub prefix: Vec<u128>,
}

proof fn lemma_take_step(blocks: Seq<Seq<Seq<char>>>, i: int)
    requires
        0 <= i < blocks.len(),
    ensures
        all_lines(blocks.take(i + 1)) == all_lines(blocks.take(i)) + blocks[i],
{
    assert(blocks.take(i + 1).drop_last() =~= blocks.take(i));
    assert(blocks.take(i + 1).last() == blocks[i]);
}

/// Fewer blocks have a beginning of the lines of more blocks.
proof fn lemma_take_prefix(blocks: Seq<Seq<Seq<char>>>, i: int, j: int)
    requires
        0 <= i <= j <= blocks.len(),
    ensures
        all_lines(blocks.take(i)).len() <= all_lines(blocks.take(j)).len(),
        all_lines(blocks.take(i)) == all_lines(blocks.take(j)).take(
            all_lines(blocks.take(i)).len() as int,
        ),
    decreases j - i,
{
    if i < j {
        lemma_take_prefix(blocks, i, j - 1);
        lemma_take_step(blocks, j - 1);
        let shorter = all_lines(blocks.take(j - 1));
        let longer = all_lines(blocks.take(j));
        let n = all_lines(blocks.take(i)).len() as int;
        assert(longer.take(n) =~= shorter.take(n));
    } else {
        assert(all_lines(blocks.take(j)).take(all_lines(blocks.take(i)).len() as int) =~= all_lines(
            blocks.take(i),
        ));
    }
}

/// Where the lines of a block stand among all the lines.
proof fn lemma_line_at(blocks: Seq<Seq<Seq<char>>>, i: int, j: int)
    requires
        0 <= i < blocks.len(),
        0 <= j < blocks[i].len(),
    ensures
        all_lines(blocks.take(i)).len() + j < all_lines(blocks).len(),
        all_lines(blocks)[all_lines(blocks.take(i)).len() + j] == blocks[i][j],
{
    lemma_take_step(blocks, i);
    lemma_take_prefix(blocks, i + 1, blocks.len() as int);
    assert(blocks.take(blocks.len() as int) =~= blocks);
    let upto = all_lines(blocks.take(i + 1));
    let k = all_lines(blocks.take(i)).len() + j;
    assert(upto[k] == blocks[i][j]);
    assert(all_lines(blocks).take(upto.len() as int)[k] == all_lines(blocks)[k]);
}

/// A sum of counts, each a `usize`.
proof fn lemma_total_bound(v: Vec<Vec<String>>, i: int)
    requires
        0 <= i <= v@.len(),
    ensures
        all_lines(v.deep_view().take(i)).len() <= i * usize::MAX,
    decreases i,
{
    let blocks = v.deep_view();
    if i > 0 {
        lemma_total_bound(v, i - 1);
        lemma_take_step(blocks, i - 1);
        assert(blocks[i - 1].len() == v@[i - 1].len());
        let max = usize::MAX as int;
        assert((i - 1) * max + max == i * max) by (nonlinear_arith);
    } else {
        assert(blocks.take(0) =~= seq![]);
    }
}

impl WrapCache {
    /// The wrapped lines of each raw line.
    pub open spec fn blocks(&self) -> Seq<Seq<Seq<char>>> {
        self.wrapped.deep_view()
    }

    /// Whether the running totals are those of the wrapped lines.
    pub open spec fn wf(&self) -> bool {
        &&& self.prefix@.len() == self.wrapped@.len() + 1
        &&& forall|i: int|
            0 <= i < self.prefix@.len() ==> #[trigger] self.prefix@[i] == all_lines(
                self.blocks().take(i),
            ).len()
    }

    /// An empty cache, not built yet.
    pub fn new() -> (r: Self)
        ensures
            r.wf(),
            r.width == 0,
            r.blocks() == Seq::<Seq<Seq<char>>>::empty(),
    {
        let mut prefix: Vec<u128> = Vec::new();
        prefix.push(0);
        let r = WrapCache { width: 0, wrapped: Vec::new(), prefix };
        assert(r.blocks() =~= Seq::<Seq<Seq<char>>>::empty());
        assert(r.blocks().take(0) =~= Seq::<Seq<Seq<char>>>::empty());
        r
    }

    /// Whether the cache has been built for some width.
    pub fn is_built(&self) -> (r: bool)
        ensures
            r == (self.width != 0),
    {
        self.width != 0
    }

    /// The number of wrapped lines.
    pub fn total(&self) -> (r: u128)
        requires
            self.wf(),
        ensures
            r == all_lines(self.blocks()).len(),
    {
        assert(self.blocks().take(self.blocks().len() as int) =~= self.blocks());
        self.prefix[self.prefix.len() - 1]
    }

    fn push_wrapped(&mut self, lines: Vec<String>)
        requires
            old(self).wf(),
        ensures
            final(self).wf(),
            final(self).width == old(self).width,
            final(self).blocks() == old(self).blocks().push(lines.deep_view()),
    {
        let ghost old_blocks = self.blocks();
        let ghost n = old_blocks.len() as int;
        let count: u128 = lines.len() as u128;
        let last: u128 = self.prefix[self.prefix.len() - 1];
        let blocks: usize = self.wrapped.len();
        proof {
            lemma_total_bound(self.wrapped, n);
            let max = usize::MAX as int;
            let b = blocks as int;
            assert(b * max + max <= (max + 1) * max) by (nonlinear_arith)
                requires
                    0 <= b <= max,
            ;
            assert((max + 1) * max <= u128::MAX) by (nonlinear_arith)
                requires
                    0 <= max <= 0xffff_ffff_ffff_ffff,
            ;
        }
        let total: u128 = last + count;
        self.wrapped.push(lines);
        self.prefix.push(total);
        proof {
            let blocks = self.blocks();
            assert(blocks =~= old_blocks.push(lines.deep_view()));
            assert(old_blocks.take(n) =~= old_blocks);
            assert forall|i: int| 0 <= i < self.prefix@.len() implies #[trigger] self.prefix@[i]
                == all_lines(blocks.take(i)).len() by {
                if i <= n {
                    assert(blocks.take(i) =~= old_blocks.take(i));
                    assert(self.prefix@[i] == old(self).prefix@[i]);
                } else {
                    assert(blocks.take(i) =~= blocks);
                    assert(blocks.drop_last() =~= old_blocks);
                }
            }
        }
    }

    /// Rebuilds the whole cache at `width`. Only needed when the width has
    /// actually changed, since that's the only time existing wrap results
    /// become stale.
    pub fn rebuild(&mut self, output: &Vec<String>, width: u16)
        ensures
            final(self).wf(),
            final(self).width == width,
            final(self).blocks() == wrapped_each(output.deep_view(), width as nat),
    {
        let mut fresh = WrapCache::new();
        fresh.width = width;
        let mut i: usize = 0;
        while i < output.len()
            invariant
                i <= output@.len(),
                fresh.wf(),
                fresh.width == width,
                fresh.blocks() == wrapped_each(output.deep_view().take(i as int), width as nat),
            decreases output@.len() - i,
        {
            let ghost before = fresh.blocks();
            fresh.push_wrapped(wrap_line(output[i].as_str(), width as usize));
            assert(fresh.blocks() =~= wrapped_each(
                output.deep_view().take(i + 1),
                width as nat,
            ));
            i = i + 1;
        }
        assert(output.deep_view().take(i as int) =~= output.deep_view());
        *self = fresh;
    }

    /// Wraps and appends just one new raw line.
    pub fn push(&mut self, line: &str)
        requires
            old(self).wf(),
        ensures
            final(self).wf(),
            final(self).width == old(self).width,
            final(self).blocks() == old(self).blocks().push(
                wrapped(line@, old(self).width as nat),
            ),
    {
        let lines = wrap_line(line, self.width as usize);
        self.push_wrapped(lines);
    }

    /// The last raw line that starts at or before the wrapped line `start`;
    /// the number of raw lines if all end before it.
    fn block_at(&self, start: u128) -> (r: usize)
        requires
            self.wf(),
        ensures
            r <= self.wrapped@.len(),
            self.prefix@[r as int] <= start,
            r < self.wrapped@.len() ==> start < self.prefix@[r + 1],
    {
        let mut lo: usize = 0;
        let mut hi: usize = self.prefix.len();
        assert(self.blocks().take(0) =~= seq![]);
        assert(self.prefix@[0] == 0);
        while hi - lo > 1
            invariant
                0 <= lo < hi <= self.prefix@.len(),
                self.wf(),
                self.prefix@[lo as int] <= start,
                hi < self.prefix@.len() ==> start < self.prefix@[hi as int],
            decreases hi - lo,
        {
            let mid: usize = lo + (hi - lo) / 2;
            if self.prefix[mid] <= start {
                lo = mid;
            } else {
                hi = mid;
            }
        }
        lo
    }

    /// Returns up to `height` wrapped lines starting at global wrapped-line
    /// position `start`, touching only the raw lines that overlap that range.
    /// Correctly resumes mid-way through a raw line's wrapped output.
    pub fn visible_slice(&self, start: u128, height: usize) -> (r: Vec<String>)
        requires
            self.wf(),
        ensures
            r.deep_view() == window(all_lines(self.blocks()), start as nat, height as nat),
    {
        let mut out: Vec<String> = Vec::new();
        let ghost blocks = self.blocks();
        let ghost lines = all_lines(blocks);
        let mut i: usize = self.block_at(start);
        proof {
            assert(blocks.take(blocks.len() as int) =~= blocks);
            assert(self.prefix@[blocks.len() as int] == lines.len());
            lemma_take_prefix(blocks, i as int, blocks.len() as int);
            assert(out.deep_view() =~= window(lines, start as nat, 0));
        }
        if i >= self.wrapped.len() {
            assert(out.deep_view() =~= window(lines, start as nat, height as nat));
            return out;
        }
        proof {
            assert(self.prefix@[i + 1] == all_lines(blocks.take(i + 1)).len());
            lemma_take_step(blocks, i as int);
            assert(blocks[i as int].len() == self.wrapped@[i as int].len());
            lemma_take_prefix(blocks, i + 1, blocks.len() as int);
        }
        let mut offset: usize = (start - self.prefix[i]) as usize;
        while i < self.wrapped.len() && out.len() < height
            invariant
                self.wf(),
                blocks == self.blocks(),
                lines == all_lines(blocks),
                i <= self.wrapped@.len(),
                out@.len() <= height,
                start + out@.len() <= lines.len(),
                out.deep_view() == lines.subrange(start as int, start + out@.len()),
                out@.len() < height ==> start + out@.len() == self.prefix@[i as int] + offset,
                i < self.wrapped@.len() ==> offset <= self.wrapped@[i as int]@.len(),
                i == self.wrapped@.len() ==> offset == 0,
            decreases self.wrapped@.len() - i,
        {
            let block = &self.wrapped[i];
            let mut j: usize = offset;
            while j < block.len() && out.len() < height
                invariant
                    self.wf(),
                    blocks == self.blocks(),
                    lines == all_lines(blocks),
                    i < self.wrapped@.len(),
                    *block == self.wrapped@[i as int],
                    j <= block@.len(),
                    out@.len() <= height,
                    start + out@.len() <= lines.len(),
                    out.deep_view() == lines.subrange(start as int, start + out@.len()),
                    start + out@.len() == self.prefix@[i as int] + j,
                decreases block@.len() - j,
            {
                let ghost before = out.deep_view();
                proof {
                    lemma_line_at(blocks, i as int, j as int);
                    assert(blocks[i as int][j as int] == block@[j as int]@);
                }
                out.push(block[j].clone());
                assert(out.deep_view() =~= before.push(block@[j as int]@));
                assert(out.deep_view() =~= lines.subrange(start as int, start + out@.len()));
                j = j + 1;
            }
            proof {
                lemma_take_step(blocks, i as int);
                assert(blocks[i as int].len() == block@.len());
                assert(self.prefix@[i + 1] == all_lines(blocks.take(i + 1)).len());
            }
            i = i + 1;
            offset = 0;
        }
        proof {
            assert(blocks.take(blocks.len() as int) =~= blocks);
            assert(self.prefix@[blocks.len() as int] == lines.len());
            assert(out.deep_view() =~= window(lines, start as nat, height as nat));
        }
        out
    }
}

} // verus!
