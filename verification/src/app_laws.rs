//! What holds of the user interface as a whole.

use vstd::prelude::*;

use crate::app::{fresh_screen, input_columns, key_pressed, one_line, AfterKey, Key, Screen};
use crate::wrap::{all_lines, at_least_one, window, wrapped, wrapped_each};
use crate::wrap_laws::law_wrapped_lines_fit;

verus! {

// ---------------------------------------------------------------------------
// Every state
// ---------------------------------------------------------------------------

/// Whatever key is pressed, whatever is put out and however the output area
/// is resized, the cursor stays in the input and the wrapped lines stay those
/// of the output.
pub proof fn law_states_stay_well_formed(
    s: Screen,
    key: Key,
    control: bool,
    text: Seq<char>,
    width: nat,
    height: nat,
)
    requires
        s.wf(),
    ensures
        key_pressed(s, key, control).0.wf(),
        s.inserted(text).wf(),
        s.output_pushed(text).wf(),
        s.input_clamped(width).wf(),
        s.output_fitted(width, height).wf(),
{
    let pushed = s.output_pushed(text);
    assert(s.width != 0 ==> pushed.blocks =~= wrapped_each(pushed.output, s.width));
}

/// Keys never change the output.
pub proof fn law_keys_keep_output(s: Screen, key: Key, control: bool)
    ensures
        key_pressed(s, key, control).0.output == s.output,
        key_pressed(s, key, control).0.blocks == s.blocks,
{
}

// ---------------------------------------------------------------------------
// Editing the input line
// ---------------------------------------------------------------------------

/// Backspace undoes the character that was just typed.
pub proof fn law_backspace_undoes_typing(s: Screen, c: char)
    requires
        s.wf(),
    ensures
        s.inserted(seq![c]).backspaced() == s,
{
    assert(s.inserted(seq![c]).backspaced() =~= s);
}

/// Pasting a text is pasting its parts one after the other; so it is the same
/// as typing its characters.
pub proof fn law_insert_in_turn(s: Screen, a: Seq<char>, b: Seq<char>)
    requires
        s.wf(),
    ensures
        s.inserted(a).inserted(b) == s.inserted(a + b),
{
    assert(s.inserted(a).inserted(b) =~= s.inserted(a + b));
}

/// A pasted text is put in without its line breaks, and otherwise as it is.
pub proof fn law_paste_is_one_line(t: Seq<char>)
    ensures
        !one_line(t).contains('\n'),
        !one_line(t).contains('\r'),
        !t.contains('\n') && !t.contains('\r') ==> one_line(t) == t,
    decreases t.len(),
{
    if t.len() > 0 {
        let shorter = t.drop_last();
        law_paste_is_one_line(shorter);
        assert(t =~= shorter.push(t.last()));
        assert(t[t.len() - 1] == t.last());
        assert forall|c: char| shorter.contains(c) implies t.contains(c) by {
            let i = choose|i: int| 0 <= i < shorter.len() && shorter[i] == c;
            assert(t[i] == c);
        }
    }
}

/// Backspace is moving left and deleting.
pub proof fn law_backspace_is_delete(s: Screen)
    requires
        s.wf(),
        s.cursor > 0,
    ensures
        s.backspaced() == s.moved_left().deleted(),
{
    assert(s.backspaced() =~= s.moved_left().deleted());
}

/// Moving left and then right, or right and then left, changes nothing where
/// the first move is possible.
pub proof fn law_moves_undo(s: Screen)
    requires
        s.wf(),
    ensures
        s.cursor > 0 ==> s.moved_left().moved_right() == s,
        s.cursor < s.input.len() ==> s.moved_right().moved_left() == s,
{
    assert(s.cursor > 0 ==> s.moved_left().moved_right() =~= s);
    assert(s.cursor < s.input.len() ==> s.moved_right().moved_left() =~= s);
}

/// Submitting hands over the text that was inserted into an empty line, and
/// leaves an empty line behind.
pub proof fn law_submit_typed(s: Screen, t: Seq<char>)
    requires
        s.wf(),
        s.input.len() == 0,
        t.len() > 0,
    ensures
        key_pressed(s.inserted(t), Key::Enter, false).1 == AfterKey::Submit(t),
        key_pressed(s.inserted(t), Key::Enter, false).0.input.len() == 0,
{
    assert(s.inserted(t).input =~= t);
}

/// However narrow the line, the cursor is within the visible part of it.
pub proof fn law_cursor_visible(s: Screen, width: nat)
    requires
        s.wf(),
    ensures
        ({
            let c = s.input_clamped(width);
            &&& c.input_scroll <= c.cursor
            &&& c.cursor < c.input_scroll + at_least_one(width)
        }),
{
}

/// In a line with room for more than the prefix the cursor's column is on the
/// line.
pub proof fn law_cursor_column(s: Screen, width: nat)
    requires
        s.wf(),
        width > 2,
    ensures
        ({
            let c = s.input_clamped(input_columns(width));
            2 + c.cursor - c.input_scroll < width
        }),
{
    law_cursor_visible(s, input_columns(width));
}

/// Drawing the same line again moves nothing.
pub proof fn law_input_clamp_stable(s: Screen, width: nat)
    requires
        s.wf(),
    ensures
        s.input_clamped(width).input_clamped(width) == s.input_clamped(width),
{
    assert(s.input_clamped(width).input_clamped(width) =~= s.input_clamped(width));
}

// ---------------------------------------------------------------------------
// Scrolling the output
// ---------------------------------------------------------------------------

proof fn lemma_block_added(blocks: Seq<Seq<Seq<char>>>, block: Seq<Seq<char>>)
    ensures
        all_lines(blocks.push(block)) == all_lines(blocks) + block,
{
    assert(blocks.push(block).drop_last() =~= blocks);
}

/// What is shown is what wrapping all of the output anew would show at that
/// place: the cache makes no difference.
pub proof fn law_cache_unseen(s: Screen, width: nat, height: nat)
    requires
        s.wf(),
        width > 0,
    ensures
        s.output_fitted(width, height).visible_output() == window(
            all_lines(wrapped_each(s.output, width)),
            s.output_fitted(width, height).scroll,
            height,
        ),
{
}

/// A view that follows the bottom shows the last lines of the output, before
/// and after a resize and whenever output is added.
pub proof fn law_bottom_followed(s: Screen, width: nat, height: nat)
    requires
        s.wf(),
        width > 0,
        s.follow_bottom,
    ensures
        ({
            let lines = all_lines(wrapped_each(s.output, width));
            let after = s.output_fitted(width, height);
            &&& after.follow_bottom
            &&& height <= lines.len() ==> after.visible_output() == lines.subrange(
                lines.len() - height,
                lines.len() as int,
            )
            &&& height > lines.len() ==> after.visible_output() == lines
        }),
{
    let lines = all_lines(wrapped_each(s.output, width));
    let after = s.output_fitted(width, height);
    assert(after.blocks == wrapped_each(s.output, width));
    if height > lines.len() {
        assert(after.visible_output() =~= lines);
    } else {
        assert(after.visible_output() =~= lines.subrange(
            lines.len() - height,
            lines.len() as int,
        ));
    }
}

/// A view that was scrolled up keeps its position when the area is resized,
/// unless that is out of range.
pub proof fn law_position_kept(s: Screen, width: nat, height: nat)
    requires
        !s.follow_bottom,
    ensures
        ({
            let after = s.output_fitted(width, height);
            &&& !after.follow_bottom
            &&& s.scroll <= after.max_scroll() ==> after.scroll == s.scroll
            &&& s.scroll > after.max_scroll() ==> after.scroll == after.max_scroll()
        }),
{
}

/// New output below what is shown does not move a view that was scrolled up.
pub proof fn law_view_undisturbed(s: Screen, line: Seq<char>)
    requires
        s.wf(),
        s.width > 0,
        s.height > 0,
        !s.follow_bottom,
        s.scroll + s.height <= all_lines(s.blocks).len(),
    ensures
        s.output_pushed(line).output_fitted(s.width, s.height).visible_output()
            == s.visible_output(),
{
    let after = s.output_pushed(line).output_fitted(s.width, s.height);
    lemma_block_added(s.blocks, wrapped(line, s.width));
    assert(after.blocks == s.blocks.push(wrapped(line, s.width)));
    assert(after.scroll == s.scroll);
    assert(after.visible_output() =~= s.visible_output());
}

/// A page up and a page down lead back, where there was a whole page above.
pub proof fn law_pages_undo(s: Screen)
    requires
        at_least_one(s.height) <= s.scroll <= s.max_scroll(),
    ensures
        s.paged_up().paged_down().scroll == s.scroll,
{
}

/// Paging stays in range, and paging down to the bottom follows it.
pub proof fn law_pages_in_range(s: Screen)
    requires
        s.scroll <= s.max_scroll(),
    ensures
        s.paged_up().scroll <= s.max_scroll(),
        s.paged_down().scroll <= s.max_scroll(),
        s.paged_down().follow_bottom <==> s.paged_down().scroll == s.max_scroll(),
        s.paged_up().follow_bottom <==> s.paged_up().scroll == s.max_scroll(),
{
}

proof fn lemma_lines_fit(output: Seq<Seq<char>>, width: nat, i: int)
    requires
        width > 0,
        0 <= i < all_lines(wrapped_each(output, width)).len(),
    ensures
        all_lines(wrapped_each(output, width))[i].len() <= width,
    decreases output.len(),
{
    let blocks = wrapped_each(output, width);
    if output.len() > 0 {
        let shorter = output.drop_last();
        assert(blocks.drop_last() =~= wrapped_each(shorter, width));
        assert(blocks.last() == wrapped(output.last(), width));
        let n = all_lines(blocks.drop_last()).len();
        if i < n {
            lemma_lines_fit(shorter, width, i);
        } else {
            law_wrapped_lines_fit(output.last(), width);
            assert(all_lines(blocks)[i] == wrapped(output.last(), width)[i - n]);
        }
    }
}

/// What is shown fits into the area: not more lines than it is high, none of
/// them longer than it is wide.
pub proof fn law_output_fits(s: Screen, width: nat, height: nat)
    requires
        s.wf(),
        width > 0,
    ensures
        ({
            let visible = s.output_fitted(width, height).visible_output();
            &&& visible.len() <= height
            &&& forall|i: int| 0 <= i < visible.len() ==> (#[trigger] visible[i]).len() <= width
        }),
{
    let after = s.output_fitted(width, height);
    let lines = all_lines(wrapped_each(s.output, width));
    let visible = after.visible_output();
    assert(after.blocks == wrapped_each(s.output, width));
    assert forall|i: int| 0 <= i < visible.len() implies (#[trigger] visible[i]).len() <= width by {
        lemma_lines_fit(s.output, width, after.scroll + i);
        assert(visible[i] == lines[after.scroll + i]);
    }
}

// ---------------------------------------------------------------------------
// What each key does
// ---------------------------------------------------------------------------

/// Whether the two show the same output at the same place.
pub open spec fn same_view(a: Screen, b: Screen) -> bool {
    &&& a.output == b.output
    &&& a.blocks == b.blocks
    &&& a.width == b.width
    &&& a.height == b.height
    &&& a.scroll == b.scroll
    &&& a.follow_bottom == b.follow_bottom
}

/// Whether the two have the same input line.
pub open spec fn same_input(a: Screen, b: Screen) -> bool {
    a.input == b.input && a.cursor == b.cursor && a.input_scroll == b.input_scroll
}

/// A text that is put in stands between what was before the cursor and what
/// was behind it, and the cursor stands behind it; the output stays as it is.
pub proof fn law_inserted(s: Screen, t: Seq<char>)
    requires
        s.wf(),
    ensures
        ({
            let after = s.inserted(t);
            let n = s.cursor as int;
            let m = t.len() as int;
            &&& same_view(s, after)
            &&& after.cursor == n + m
            &&& after.input.len() == s.input.len() + m
            &&& forall|i: int| 0 <= i < n ==> #[trigger] after.input[i] == s.input[i]
            &&& forall|i: int| n <= i < n + m ==> #[trigger] after.input[i] == t[i - n]
            &&& forall|i: int|
                n + m <= i < after.input.len() ==> #[trigger] after.input[i] == s.input[i - m]
        }),
{
}

/// Every character goes into the input, but for `c` with control, which ends
/// the session as Escape does.
pub proof fn law_typed(s: Screen, c: char, control: bool)
    ensures
        !(c == 'c' && control) ==> key_pressed(s, Key::Char(c), control) == (
            s.inserted(seq![c]),
            AfterKey::Continue,
        ),
        key_pressed(s, Key::Char('c'), true) == (s, AfterKey::Quit),
        key_pressed(s, Key::Esc, control) == (s, AfterKey::Quit),
        key_pressed(s, Key::Other, control) == (s, AfterKey::Continue),
{
}

/// Backspace takes away the character before the cursor and delete the one
/// behind it, where there is one; all others stay, in order.
pub proof fn law_erased(s: Screen, control: bool)
    requires
        s.wf(),
    ensures
        ({
            let (back, after_back) = key_pressed(s, Key::Backspace, control);
            let (gone, after_gone) = key_pressed(s, Key::Delete, control);
            let n = s.cursor as int;
            &&& after_back is Continue && after_gone is Continue
            &&& same_view(s, back) && same_view(s, gone)
            &&& n == 0 ==> back == s
            &&& n == s.input.len() ==> gone == s
            &&& n > 0 ==> back.cursor == n - 1 && back.input == s.input.take(n - 1)
                + s.input.skip(n)
            &&& n < s.input.len() ==> gone.cursor == n && gone.input == s.input.take(n)
                + s.input.skip(n + 1)
        }),
{
    let back = key_pressed(s, Key::Backspace, control).0;
    let gone = key_pressed(s, Key::Delete, control).0;
    let n = s.cursor as int;
    if n > 0 {
        assert(back.input =~= s.input.take(n - 1) + s.input.skip(n));
    }
    if n < s.input.len() {
        assert(gone.input =~= s.input.take(n) + s.input.skip(n + 1));
    }
}

/// The keys that move the cursor change nothing else. Left and right move it
/// by one, as far as the input goes; home and end move it to the input's
/// beginning and behind its last character.
pub proof fn law_cursor_keys(s: Screen, control: bool)
    requires
        s.wf(),
    ensures
        ({
            let left = key_pressed(s, Key::Left, control);
            let right = key_pressed(s, Key::Right, control);
            let home = key_pressed(s, Key::Home, control);
            let end = key_pressed(s, Key::End, control);
            &&& left.1 is Continue && right.1 is Continue && home.1 is Continue
                && end.1 is Continue
            &&& left.0 == (Screen { cursor: left.0.cursor, ..s })
            &&& right.0 == (Screen { cursor: right.0.cursor, ..s })
            &&& home.0 == (Screen { cursor: 0, ..s })
            &&& end.0 == (Screen { cursor: s.input.len(), ..s })
            &&& s.cursor > 0 ==> left.0.cursor == s.cursor - 1
            &&& s.cursor == 0 ==> left.0.cursor == 0
            &&& s.cursor < s.input.len() ==> right.0.cursor == s.cursor + 1
            &&& s.cursor == s.input.len() ==> right.0.cursor == s.cursor
        }),
{
}

/// Enter submits the whole input, whatever the cursor, and leaves an empty
/// one; an empty input is not submitted. The output stays as it is.
pub proof fn law_enter(s: Screen, control: bool)
    ensures
        ({
            let (after, outcome) = key_pressed(s, Key::Enter, control);
            &&& s.input.len() == 0 ==> after == s && outcome is Continue
            &&& s.input.len() > 0 ==> outcome == AfterKey::Submit(s.input)
            &&& s.input.len() > 0 ==> after.input.len() == 0 && after.cursor == 0
                && after.input_scroll == 0 && same_view(s, after)
        }),
{
}

/// The page keys scroll by the height of the output area, and by one line at
/// least, as far as there is output; they leave the input alone. Paging up
/// from the bottom no longer follows it, unless all of the output is shown.
pub proof fn law_page_keys(s: Screen, control: bool)
    requires
        s.scroll <= s.max_scroll(),
    ensures
        ({
            let (up, after_up) = key_pressed(s, Key::PageUp, control);
            let (down, after_down) = key_pressed(s, Key::PageDown, control);
            let page = if s.height > 0 {
                s.height
            } else {
                1
            };
            &&& after_up is Continue && after_down is Continue
            &&& same_input(s, up) && same_input(s, down)
            &&& up.output == s.output && down.output == s.output
            &&& up.blocks == s.blocks && down.blocks == s.blocks
            &&& up.width == s.width && down.width == s.width
            &&& up.height == s.height && down.height == s.height
            &&& s.scroll >= page ==> up.scroll == s.scroll - page
            &&& s.scroll < page ==> up.scroll == 0
            &&& s.scroll + page <= s.max_scroll() ==> down.scroll == s.scroll + page
            &&& s.scroll + page > s.max_scroll() ==> down.scroll == s.max_scroll()
            &&& up.follow_bottom <==> s.max_scroll() == 0
            &&& down.follow_bottom <==> s.scroll + page >= s.max_scroll()
        }),
{
}

/// The output is scrolled all the way down where its last line is the last of
/// the area, or where all of it is shown.
pub proof fn law_scroll_limit(s: Screen)
    requires
        s.height > 0,
    ensures
        all_lines(s.blocks).len() >= s.height ==> s.max_scroll() + s.height == all_lines(
            s.blocks,
        ).len(),
        all_lines(s.blocks).len() <= s.height ==> s.max_scroll() == 0,
{
}

// ---------------------------------------------------------------------------
// Output and drawing
// ---------------------------------------------------------------------------

/// A new line of output stands behind all others, and nothing else of what
/// the user typed or scrolled to changes.
pub proof fn law_output_added(s: Screen, line: Seq<char>)
    ensures
        ({
            let after = s.output_pushed(line);
            &&& after.output == s.output.push(line)
            &&& same_input(s, after)
            &&& after.scroll == s.scroll
            &&& after.follow_bottom == s.follow_bottom
            &&& after.height == s.height
            &&& after.width == s.width
        }),
{
}

/// Fitting the output into an area changes neither the output nor the input,
/// nor whether the bottom is followed; the size is that of the area, and the
/// place is in range.
pub proof fn law_fitting_keeps(s: Screen, width: nat, height: nat)
    ensures
        ({
            let after = s.output_fitted(width, height);
            &&& after.output == s.output
            &&& same_input(s, after)
            &&& after.follow_bottom == s.follow_bottom
            &&& after.width == width
            &&& after.height == height
            &&& after.scroll <= after.max_scroll()
        }),
{
}

/// The lines that are shown are those of the wrapped output from the scroll
/// position on, one after the other, and as many as there is room for.
pub proof fn law_visible_output(s: Screen, i: int)
    requires
        s.scroll <= all_lines(s.blocks).len(),
    ensures
        ({
            let lines = all_lines(s.blocks);
            let visible = s.visible_output();
            &&& 0 <= i < visible.len() ==> visible[i] == lines[s.scroll + i]
            &&& visible.len() == s.height || s.scroll + visible.len() == lines.len()
            &&& visible.len() <= s.height
        }),
{
}

/// What is shown of the input are its characters from its scroll position on,
/// as many as there is room for.
pub proof fn law_visible_input(s: Screen, width: nat, i: int)
    requires
        s.input_scroll <= s.input.len(),
    ensures
        ({
            let visible = s.visible_input(width);
            &&& 0 <= i < visible.len() ==> visible[i] == s.input[s.input_scroll + i]
            &&& visible.len() == width || s.input_scroll + visible.len() == s.input.len()
            &&& visible.len() <= width
        }),
{
}

/// Drawing the input line scrolls no farther than needed: where the cursor is
/// in view and no column is wasted, the line stays where it is; where it fits
/// with its cursor, all of it is shown. Nothing else changes.
pub proof fn law_input_scroll(s: Screen, width: nat)
    requires
        s.wf(),
        width > 0,
    ensures
        ({
            let after = s.input_clamped(width);
            &&& after == (Screen { input_scroll: after.input_scroll, ..s })
            &&& s.input_scroll <= s.cursor < s.input_scroll + width && s.input_scroll + width
                <= s.input.len() ==> after.input_scroll == s.input_scroll
            &&& s.input.len() < width ==> after.input_scroll == 0
            &&& s.cursor < s.input_scroll && s.cursor + width <= s.input.len()
                ==> after.input_scroll == s.cursor
            &&& s.cursor >= s.input_scroll + width ==> after.input_scroll + width == s.cursor + 1
            &&& after.input_scroll > 0 ==> after.input_scroll + width <= s.input.len() + 1
        }),
{
}

/// A pasted text keeps all its characters but the line breaks, in order.
pub proof fn law_paste_in_parts(a: Seq<char>, b: Seq<char>)
    ensures
        one_line(a + b) == one_line(a) + one_line(b),
        one_line(seq!['\n']) == Seq::<char>::empty(),
        one_line(seq!['\r']) == Seq::<char>::empty(),
    decreases b.len(),
{
    reveal_with_fuel(one_line, 2);
    if b.len() == 0 {
        assert(a + b =~= a);
        assert(one_line(a) + one_line(b) =~= one_line(a));
    } else {
        assert((a + b).drop_last() =~= a + b.drop_last());
        law_paste_in_parts(a, b.drop_last());
        assert(one_line(a + b) =~= one_line(a) + one_line(b));
    }
}

/// The input line and its prefix fill the width they are given, where there
/// is that much input, and never go beyond it.
pub proof fn law_input_line_fits(s: Screen, width: nat)
    requires
        s.wf(),
        width >= 2,
    ensures
        ({
            let after = s.input_clamped(input_columns(width));
            let visible = after.visible_input(input_columns(width));
            &&& 2 + visible.len() <= width
            &&& s.input.len() + 2 > width ==> 2 + visible.len() + 1 >= width
            &&& s.input.len() + 2 < width ==> visible == s.input
        }),
{
    let after = s.input_clamped(input_columns(width));
    let visible = after.visible_input(input_columns(width));
    if s.input.len() + 2 < width {
        assert(visible =~= s.input);
    }
}

/// A fresh state shows its lines of help from the first on, follows the
/// bottom, and has nothing in its input.
pub proof fn law_fresh_screen(width: nat, height: nat)
    ensures
        ({
            let s = fresh_screen();
            &&& s.wf()
            &&& s.input.len() == 0 && s.cursor == 0 && s.input_scroll == 0
            &&& s.follow_bottom && s.scroll == 0
            &&& s.output.len() == 4
            &&& width > 0 ==> s.output_fitted(width, height).blocks == wrapped_each(
                s.output,
                width,
            )
        }),
{
}

} // verus!
