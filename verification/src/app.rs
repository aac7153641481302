//! The state of the user interface: the scrollback and the input line.

use vstd::prelude::*;

use crate::text::{chars_of, string_between};
use crate::wrap::{all_lines, at_least_one, window, wrapped, wrapped_each, WrapCache};

verus! {

// ---------------------------------------------------------------------------
// The state and its changes
// ---------------------------------------------------------------------------

/// The mathematical value of an [`App`].
#[verifier::ext_equal]
pub struct Screen {
    pub output: Seq<Seq<char>>,
    pub input: Seq<char>,
    pub cursor: nat,
    pub input_scroll: nat,
    pub scroll: nat,
    pub follow_bottom: bool,
    /// The height of the output area.
    pub height: nat,
    /// The width that the output was last wrapped for; 0 before that.
    pub width: nat,
    /// The wrapped lines of each line of output.
    pub blocks: Seq<Seq<Seq<char>>>,
}

impl Screen {
    /// What holds of every state: the cursor stands in the input or behind
    /// it, and the wrapped lines are those of the output.
    pub open spec fn wf(self) -> bool {
        &&& self.cursor <= self.input.len()
        &&& self.width != 0 ==> self.blocks == wrapped_each(self.output, self.width)
    }

    /// The farthest that the output can be scrolled down.
    pub open spec fn max_scroll(self) -> nat {
        let total = all_lines(self.blocks).len();
        let page = at_least_one(self.height);
        if total >= page {
            (total - page) as nat
        } else {
            0
        }
    }

    /// The state with the scroll position in range, and at the bottom if the
    /// view follows it.
    pub open spec fn scroll_clamped(self) -> Screen {
        Screen {
            scroll: if self.follow_bottom || self.scroll > self.max_scroll() {
                self.max_scroll()
            } else {
                self.scroll
            },
            ..self
        }
    }

    /// The state with one more line of output.
    pub open spec fn output_pushed(self, line: Seq<char>) -> Screen {
        Screen {
            output: self.output.push(line),
            blocks: if self.width != 0 {
                self.blocks.push(wrapped(line, self.width))
            } else {
                self.blocks
            },
            ..self
        }
    }

    /// The state scrolled to the given place, which follows the bottom if it
    /// is there.
    pub open spec fn scrolled_to(self, scroll: nat) -> Screen {
        Screen { scroll, follow_bottom: scroll >= self.max_scroll(), ..self }
    }

    /// The state one page up.
    pub open spec fn paged_up(self) -> Screen {
        let page = at_least_one(self.height);
        self.scrolled_to(
            if self.scroll >= page {
                (self.scroll - page) as nat
            } else {
                0
            },
        )
    }

    /// The state one page down.
    pub open spec fn paged_down(self) -> Screen {
        let page = at_least_one(self.height);
        self.scrolled_to(
            if self.scroll + page <= self.max_scroll() {
                self.scroll + page
            } else {
                self.max_scroll()
            },
        )
    }

    /// The state with `t` put into the input at the cursor.
    pub open spec fn inserted(self, t: Seq<char>) -> Screen {
        Screen {
            input: self.input.take(self.cursor as int) + t + self.input.skip(self.cursor as int),
            cursor: self.cursor + t.len(),
            ..self
        }
    }

    /// The state without the character before the cursor.
    pub open spec fn backspaced(self) -> Screen {
        if self.cursor > 0 {
            Screen {
                input: self.input.remove(self.cursor - 1),
                cursor: (self.cursor - 1) as nat,
                ..self
            }
        } else {
            self
        }
    }

    /// The state without the character behind the cursor.
    pub open spec fn deleted(self) -> Screen {
        if self.cursor < self.input.len() {
            Screen { input: self.input.remove(self.cursor as int), ..self }
        } else {
            self
        }
    }

    /// The state with the cursor at the given place.
    pub open spec fn moved_to(self, cursor: nat) -> Screen {
        Screen { cursor, ..self }
    }

    /// The state with the cursor one character to the left.
    pub open spec fn moved_left(self) -> Screen {
        if self.cursor > 0 {
            self.moved_to((self.cursor - 1) as nat)
        } else {
            self
        }
    }

    /// The state with the cursor one character to the right.
    pub open spec fn moved_right(self) -> Screen {
        if self.cursor < self.input.len() {
            self.moved_to(self.cursor + 1)
        } else {
            self
        }
    }

    /// The state with an empty input line.
    pub open spec fn submitted(self) -> Screen {
        if self.input.len() == 0 {
            self
        } else {
            Screen { input: seq![], cursor: 0, input_scroll: 0, ..self }
        }
    }

    /// The state with the input line scrolled so that the cursor is within
    /// `width` columns, with no blank space behind the text that is not
    /// needed.
    pub open spec fn input_clamped(self, width: nat) -> Screen {
        let w = at_least_one(width);
        let near = if self.cursor < self.input_scroll {
            self.cursor as int
        } else if self.cursor >= self.input_scroll + w {
            self.cursor + 1 - w
        } else {
            self.input_scroll as int
        };
        // A cursor behind the last character needs a column of its own.
        let columns = if self.cursor >= self.input.len() {
            self.input.len() + 1
        } else {
            self.input.len()
        };
        let most = if columns >= w {
            columns - w
        } else {
            0
        };
        Screen {
            input_scroll: if near > most {
                most as nat
            } else {
                near as nat
            },
            ..self
        }
    }

    /// The state in which the output area is `width` columns wide and
    /// `height` lines high.
    pub open spec fn output_fitted(self, width: nat, height: nat) -> Screen {
        let blocks = if self.width != width {
            wrapped_each(self.output, width)
        } else {
            self.blocks
        };
        (Screen { width, blocks, height, ..self }).scroll_clamped()
    }

    /// The lines that an output area of that size shows of this state.
    pub open spec fn visible_output(self) -> Seq<Seq<char>> {
        window(all_lines(self.blocks), self.scroll, self.height)
    }

    /// The characters of the input line that `width` columns show.
    pub open spec fn visible_input(self, width: nat) -> Seq<char> {
        let from = if self.input_scroll <= self.input.len() {
            self.input_scroll as int
        } else {
            self.input.len() as int
        };
        let to = if from + width <= self.input.len() {
            from + width
        } else {
            self.input.len() as int
        };
        self.input.subrange(from, to)
    }
}

/// `s` without line feeds and carriage returns.
pub open spec fn one_line(s: Seq<char>) -> Seq<char>
    decreases s.len(),
{
    if s.len() == 0 {
        seq![]
    } else if s.last() == '\n' || s.last() == '\r' {
        one_line(s.drop_last())
    } else {
        one_line(s.drop_last()).push(s.last())
    }
}

/// The output that a fresh state shows.
pub open spec fn welcome() -> Seq<Seq<char>> {
    seq![
        "Welcome! Type a message and press Enter to submit."@,
        "Use PageUp / PageDown to scroll this output area."@,
        "Try /connect irc.libera.chat:6667, or /connect --tls irc.libera.chat:6697."@,
        "Also: /alias name { ...commands... }, /if $1 == foo { ... }, /load <file>."@,
    ]
}

/// The state at the start.
pub open spec fn fresh_screen() -> Screen {
    Screen {
        output: welcome(),
        input: seq![],
        cursor: 0,
        input_scroll: 0,
        scroll: 0,
        follow_bottom: true,
        height: 0,
        width: 0,
        blocks: seq![],
    }
}

// ---------------------------------------------------------------------------
// Keys
// ---------------------------------------------------------------------------

/// A key of the keyboard.
#[derive(Debug, Clone, Copy, PartialEq, Eq, Structural)]
pub enum Key {
    Esc,
    Enter,
    Backspace,
    Delete,
    Left,
    Right,
    Home,
    End,
    PageUp,
    PageDown,
    Char(char),
    Other,
}

/// What is to be done after a key.
#[derive(Debug)]
pub enum KeyOutcome {
    Continue,
    Quit,
    /// The input line was submitted.
    Submit(String),
}

/// What is to be done after a key, with the value of the submitted line.
pub enum AfterKey {
    Continue,
    Quit,
    Submit(Seq<char>),
}

impl View for KeyOutcome {
    type V = AfterKey;

    open spec fn view(&self) -> AfterKey {
        match *self {
            KeyOutcome::Continue => AfterKey::Continue,
            KeyOutcome::Quit => AfterKey::Quit,
            KeyOutcome::Submit(line) => AfterKey::Submit(line@),
        }
    }
}

/// The state after a key was pressed, and what is to be done then.
pub open spec fn key_pressed(s: Screen, key: Key, control: bool) -> (Screen, AfterKey) {
    match key {
        Key::Esc => (s, AfterKey::Quit),
        Key::Enter => if s.input.len() == 0 {
            (s, AfterKey::Continue)
        } else {
            (s.submitted(), AfterKey::Submit(s.input))
        },
        Key::Backspace => (s.backspaced(), AfterKey::Continue),
        Key::Delete => (s.deleted(), AfterKey::Continue),
        Key::Left => (s.moved_left(), AfterKey::Continue),
        Key::Right => (s.moved_right(), AfterKey::Continue),
        Key::Home => (s.moved_to(0), AfterKey::Continue),
        Key::End => (s.moved_to(s.input.len()), AfterKey::Continue),
        Key::PageUp => (s.paged_up(), AfterKey::Continue),
        Key::PageDown => (s.paged_down(), AfterKey::Continue),
        Key::Char(c) => if c == 'c' && control {
            (s, AfterKey::Quit)
        } else {
            (s.inserted(seq![c]), AfterKey::Continue)
        },
        Key::Other => (s, AfterKey::Continue),
    }
}

// ---------------------------------------------------------------------------
// The application
// ---------------------------------------------------------------------------

/// Holds all mutable application state.
pub struct App {
    output: Vec<String>,
    /// Input text stored as chars (not a String) so cursor movement and
    /// insertion at arbitrary positions don't have to worry about UTF-8
    /// byte-boundary slicing.
    input: Vec<char>,
    /// Cursor position as a char index into `input`.
    input_cursor: usize,
    /// Number of chars scrolled off the left edge of the input line.
    input_scroll: usize,
    /// Number of lines scrolled down from the top of the wrapped output.
    scroll: u128,
    /// When true, the view auto-follows new output (sticks to the bottom).
    /// This is what makes resizing feel natural: if you were at the bottom,
    /// you stay at the bottom after a resize; if you'd scrolled up, your
    /// position is preserved (and only clamped if it would go out of range).
    follow_bottom: bool,
    /// Height (in lines) of the output area, refreshed every draw call.
    last_output_height: usize,
    /// Word-wrap results for `output`, kept incrementally so a redraw only
    /// touches the raw lines actually visible.
    wrap_cache: WrapCache,
}

impl View for App {
    type V = Screen;

    closed spec fn view(&self) -> Screen {
        Screen {
            output: self.output.deep_view(),
            input: self.input@,
            cursor: self.input_cursor as nat,
            input_scroll: self.input_scroll as nat,
            scroll: self.scroll as nat,
            follow_bottom: self.follow_bottom,
            height: self.last_output_height as nat,
            width: self.wrap_cache.width as nat,
            blocks: self.wrap_cache.blocks(),
        }
    }
}

impl App {
    /// Whether the parts of the state agree with each other.
    pub closed spec fn wf(&self) -> bool {
        self@.wf() && self.wrap_cache.wf()
    }

    /// A fresh state, which shows a few lines of help.
    pub fn new() -> (r: Self)
        ensures
            r.wf(),
            r@ == fresh_screen(),
    {
        let mut output: Vec<String> = Vec::new();
        output.push("Welcome! Type a message and press Enter to submit.".to_string());
        output.push("Use PageUp / PageDown to scroll this output area.".to_string());
        output.push(
            "Try /connect irc.libera.chat:6667, or /connect --tls irc.libera.chat:6697.".to_string(),
        );
        output.push(
            "Also: /alias name { ...commands... }, /if $1 == foo { ... }, /load <file>.".to_string(),
        );
        assert(output.deep_view() =~= welcome());
        let r = App {
            output,
            input: Vec::new(),
            input_cursor: 0,
            input_scroll: 0,
            scroll: 0,
            follow_bottom: true,
            last_output_height: 0,
            wrap_cache: WrapCache::new(),
        };
        assert(r@ =~= fresh_screen());
        r
    }

    /// What holds of every state.
    pub proof fn law_wf(&self)
        requires
            self.wf(),
        ensures
            self@.wf(),
    {
    }

    /// The lines of output so far, not wrapped.
    pub fn output(&self) -> (r: &Vec<String>)
        ensures
            r.deep_view() == self@.output,
    {
        &self.output
    }

    /// The height of a page.
    fn page(&self) -> (r: usize)
        ensures
            r == at_least_one(self@.height),
    {
        if self.last_output_height == 0 {
            1
        } else {
            self.last_output_height
        }
    }

    /// The farthest that the output can be scrolled down.
    pub fn max_scroll(&self) -> (r: u128)
        requires
            self.wf(),
        ensures
            r == self@.max_scroll(),
    {
        let total = self.wrap_cache.total();
        let page = self.page() as u128;
        if total >= page {
            total - page
        } else {
            0
        }
    }

    /// Re-validate `scroll` against the current output height. Call this
    /// every frame (after the output area's height is known) so a resize
    /// is honored immediately instead of only on the next keypress.
    pub fn clamp_scroll(&mut self)
        requires
            old(self).wf(),
        ensures
            final(self).wf(),
            final(self)@ == old(self)@.scroll_clamped(),
    {
        let max = self.max_scroll();
        if self.follow_bottom || self.scroll > max {
            self.scroll = max;
        }
        assert(self@ =~= old(self)@.scroll_clamped());
    }

    /// Appends a line to the output. Wraps just this one line -- cheap
    /// regardless of how long the scrollback already is. If nothing has been
    /// drawn yet, the first draw will wrap this line along with everything
    /// else.
    pub fn push_output(&mut self, line: String)
        requires
            old(self).wf(),
        ensures
            final(self).wf(),
            final(self)@ == old(self)@.output_pushed(line@),
    {
        if self.wrap_cache.is_built() {
            self.wrap_cache.push(line.as_str());
        }
        self.output.push(line);
        assert(self.output.deep_view() =~= old(self).output.deep_view().push(line@));
        assert(self@ =~= old(self)@.output_pushed(line@));
        assert(self@.width != 0 ==> self@.blocks =~= wrapped_each(self@.output, self@.width));
    }

    /// Scrolls one page up.
    pub fn page_up(&mut self)
        requires
            old(self).wf(),
        ensures
            final(self).wf(),
            final(self)@ == old(self)@.paged_up(),
    {
        let page = self.page() as u128;
        if self.scroll >= page {
            self.scroll = self.scroll - page;
        } else {
            self.scroll = 0;
        }
        let max = self.max_scroll();
        self.follow_bottom = self.scroll >= max;
        assert(self@ =~= old(self)@.paged_up());
    }

    /// Scrolls one page down.
    pub fn page_down(&mut self)
        requires
            old(self).wf(),
        ensures
            final(self).wf(),
            final(self)@ == old(self)@.paged_down(),
    {
        let page = self.page() as u128;
        let max = self.max_scroll();
        if self.scroll <= max && page <= max - self.scroll {
            self.scroll = self.scroll + page;
        } else {
            self.scroll = max;
        }
        self.follow_bottom = self.scroll >= max;
        assert(self@ =~= old(self)@.paged_down());
    }

    /// Puts a character into the input line at the cursor.
    pub fn insert_char(&mut self, c: char)
        requires
            old(self).wf(),
        ensures
            final(self).wf(),
            final(self)@ == old(self)@.inserted(seq![c]),
    {
        self.input.insert(self.input_cursor, c);
        assert(self.input_cursor < self.input.len());
        self.input_cursor = self.input_cursor + 1;
        assert(self@ =~= old(self)@.inserted(seq![c]));
    }

    /// Inserts a whole string at the cursor in one go -- used for pastes.
    /// The tail is moved once, not once per character. Since the input is a
    /// single-line field, newlines in the pasted text are dropped rather
    /// than embedded.
    pub fn insert_str(&mut self, s: &str)
        requires
            old(self).wf(),
        ensures
            final(self).wf(),
            final(self)@ == old(self)@.inserted(one_line(s@)),
    {
        let v = chars_of(s);
        let mut tail = self.input.split_off(self.input_cursor);
        let ghost head = self.input@;
        let mut i: usize = 0;
        assert(v@.take(0) =~= seq![]);
        assert(head + one_line(v@.take(0)) =~= head);
        while i < v.len()
            invariant
                i <= v@.len(),
                v@ == s@,
                self.input@ == head + one_line(v@.take(i as int)),
                self.output == old(self).output,
                self.input_cursor == old(self).input_cursor,
                self.input_scroll == old(self).input_scroll,
                self.scroll == old(self).scroll,
                self.follow_bottom == old(self).follow_bottom,
                self.last_output_height == old(self).last_output_height,
                self.wrap_cache == old(self).wrap_cache,
            decreases v@.len() - i,
        {
            let c = v[i];
            assert(v@.take(i + 1).drop_last() =~= v@.take(i as int));
            if c != '\n' && c != '\r' {
                let ghost before = one_line(v@.take(i as int));
                self.input.push(c);
                assert((head + before).push(c) =~= head + before.push(c));
            }
            i = i + 1;
        }
        assert(v@.take(i as int) =~= s@);
        self.input_cursor = self.input.len();
        self.input.append(&mut tail);
        assert(self@ =~= old(self)@.inserted(one_line(s@)));
    }

    /// Removes the character before the cursor.
    pub fn backspace(&mut self)
        requires
            old(self).wf(),
        ensures
            final(self).wf(),
            final(self)@ == old(self)@.backspaced(),
    {
        if self.input_cursor > 0 {
            self.input_cursor = self.input_cursor - 1;
            self.input.remove(self.input_cursor);
        }
        assert(self@ =~= old(self)@.backspaced());
    }

    /// Removes the character behind the cursor.
    pub fn delete_forward(&mut self)
        requires
            old(self).wf(),
        ensures
            final(self).wf(),
            final(self)@ == old(self)@.deleted(),
    {
        if self.input_cursor < self.input.len() {
            self.input.remove(self.input_cursor);
        }
        assert(self@ =~= old(self)@.deleted());
    }

    /// Moves the cursor one character to the left.
    pub fn move_left(&mut self)
        requires
            old(self).wf(),
        ensures
            final(self).wf(),
            final(self)@ == old(self)@.moved_left(),
    {
        if self.input_cursor > 0 {
            self.input_cursor = self.input_cursor - 1;
        }
        assert(self@ =~= old(self)@.moved_left());
    }

    /// Moves the cursor one character to the right.
    pub fn move_right(&mut self)
        requires
            old(self).wf(),
        ensures
            final(self).wf(),
            final(self)@ == old(self)@.moved_right(),
    {
        if self.input_cursor < self.input.len() {
            self.input_cursor = self.input_cursor + 1;
        }
        assert(self@ =~= old(self)@.moved_right());
    }

    /// Moves the cursor to the beginning of the input line.
    pub fn move_home(&mut self)
        requires
            old(self).wf(),
        ensures
            final(self).wf(),
            final(self)@ == old(self)@.moved_to(0),
    {
        self.input_cursor = 0;
        assert(self@ =~= old(self)@.moved_to(0));
    }

    /// Moves the cursor to the end of the input line.
    pub fn move_end(&mut self)
        requires
            old(self).wf(),
        ensures
            final(self).wf(),
            final(self)@ == old(self)@.moved_to(old(self)@.input.len()),
    {
        self.input_cursor = self.input.len();
        assert(self@ =~= old(self)@.moved_to(old(self)@.input.len()));
    }

    /// Takes the input line, unless it is empty.
    pub fn submit_input(&mut self) -> (r: Option<String>)
        requires
            old(self).wf(),
        ensures
            final(self).wf(),
            final(self)@ == old(self)@.submitted(),
            old(self)@.input.len() == 0 <==> r is None,
            r matches Some(line) ==> line@ == old(self)@.input,
    {
        if self.input.len() == 0 {
            return None;
        }
        let msg = string_between(self.input.as_slice(), 0, self.input.len());
        assert(msg@ =~= self@.input);
        self.input.clear();
        self.input_cursor = 0;
        self.input_scroll = 0;
        assert(self@ =~= old(self)@.submitted());
        Some(msg)
    }

    /// Keep the cursor within the visible window of the input line, scrolling
    /// horizontally like a text field when the content is wider than `width`.
    /// Call this every draw with the current line width, so it self-corrects
    /// on resize just like the output area's vertical scroll does.
    pub fn clamp_input_scroll(&mut self, width: usize)
        requires
            old(self).wf(),
        ensures
            final(self).wf(),
            final(self)@ == old(self)@.input_clamped(width as nat),
    {
        let width: usize = if width == 0 {
            1
        } else {
            width
        };
        if self.input_cursor < self.input_scroll {
            // Cursor moved left past the visible window -- scroll left to it.
            self.input_scroll = self.input_cursor;
        } else if self.input_cursor - self.input_scroll >= width {
            // Cursor moved right past the visible window -- scroll right so
            // the cursor lands on the last visible column.
            self.input_scroll = self.input_cursor - (width - 1);
        }
        // If the line got shorter (deletion) or the window got wider
        // (resize), don't leave a scroll position with unnecessary blank
        // space trailing past the end of the text. When the cursor sits
        // right after the last character (append position), one extra
        // column must stay reserved for it.
        let len = self.input.len();
        let max_scroll: usize = if self.input_cursor >= len {
            if len >= width - 1 {
                len - (width - 1)
            } else {
                0
            }
        } else if len >= width {
            len - width
        } else {
            0
        };
        if self.input_scroll > max_scroll {
            self.input_scroll = max_scroll;
        }
        assert(self@ =~= old(self)@.input_clamped(width as nat));
    }

    /// The lines to show in an output area of the given size. Only when the
    /// width has genuinely changed is every raw line wrapped again.
    pub fn visible_output(&mut self, width: u16, height: u16) -> (r: Vec<String>)
        requires
            old(self).wf(),
        ensures
            final(self).wf(),
            final(self)@ == old(self)@.output_fitted(width as nat, height as nat),
            r.deep_view() == final(self)@.visible_output(),
    {
        if self.wrap_cache.width != width {
            self.wrap_cache.rebuild(&self.output, width);
        }
        self.last_output_height = height as usize;
        self.clamp_scroll();
        assert(self@ =~= old(self)@.output_fitted(width as nat, height as nat));
        self.wrap_cache.visible_slice(self.scroll, height as usize)
    }

    /// The text to show in an input line of the given width, and the column
    /// of the cursor in it. The text starts with a prefix that makes it
    /// visually distinguishable from the output area.
    pub fn visible_input(&mut self, width: u16) -> (r: (String, u16))
        requires
            old(self).wf(),
        ensures
            final(self).wf(),
            final(self)@ == old(self)@.input_clamped(input_columns(width as nat)),
            r.0@ == "> "@ + final(self)@.visible_input(input_columns(width as nat)),
            r.1 == 2 + final(self)@.cursor - final(self)@.input_scroll,
    {
        let columns: usize = if width >= 2 {
            (width - 2) as usize
        } else {
            0
        };
        self.clamp_input_scroll(columns);
        let len = self.input.len();
        let from: usize = if self.input_scroll <= len {
            self.input_scroll
        } else {
            len
        };
        let to: usize = if columns <= len - from {
            from + columns
        } else {
            len
        };
        let mut text = "> ".to_string();
        text.append(string_between(self.input.as_slice(), from, to).as_str());
        let column = (self.input_cursor - self.input_scroll) as u16;
        (text, 2 + column)
    }

    /// Handles a key that was pressed.
    pub fn press_key(&mut self, key: Key, control: bool) -> (r: KeyOutcome)
        requires
            old(self).wf(),
        ensures
            final(self).wf(),
            (final(self)@, r@) == key_pressed(old(self)@, key, control),
    {
        match key {
            Key::Esc => {
                return KeyOutcome::Quit;
            },
            Key::Enter => {
                if let Some(line) = self.submit_input() {
                    return KeyOutcome::Submit(line);
                }
            },
            Key::Backspace => self.backspace(),
            Key::Delete => self.delete_forward(),
            Key::Left => self.move_left(),
            Key::Right => self.move_right(),
            Key::Home => self.move_home(),
            Key::End => self.move_end(),
            Key::PageUp => self.page_up(),
            Key::PageDown => self.page_down(),
            Key::Char(c) => {
                if c == 'c' && control {
                    return KeyOutcome::Quit;
                }
                self.insert_char(c);
            },
            Key::Other => {},
        }
        KeyOutcome::Continue
    }
}

/// The columns of an input line that are left beside its prefix.
pub open spec fn input_columns(width: nat) -> nat {
    if width >= 2 {
        (width - 2) as nat
    } else {
        0
    }
}

} // verus!
