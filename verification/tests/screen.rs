//! Word wrap, the scrollback and the input line.

use irc_tui::app::{App, Key, KeyOutcome};
use irc_tui::wrap::{wrap_line, WrapCache};

// ---------------------------------------------------------------------------
// Word wrap
// ---------------------------------------------------------------------------

#[test]
fn short_lines_stay_as_they_are() {
    assert_eq!(wrap_line("hello world", 11), ["hello world"]);
    assert_eq!(wrap_line("a  b", 10), ["a  b"]);
    assert_eq!(wrap_line("", 10), [""]);
    assert_eq!(wrap_line("trailing ", 10), ["trailing "]);
    assert_eq!(wrap_line("  indented", 10), ["indented"]);
}

#[test]
fn lines_break_between_words() {
    assert_eq!(wrap_line("the quick brown fox", 10), ["the quick", "brown fox"]);
    assert_eq!(wrap_line("aa bb cc", 5), ["aa bb", "cc"]);
}

#[test]
fn long_words_are_cut() {
    assert_eq!(wrap_line("abcdefgh", 3), ["abc", "def", "gh"]);
    assert_eq!(wrap_line("x abcdef y", 3), ["x", "abc", "def", "y"]);
    assert_eq!(wrap_line("abcd e", 3), ["abc", "d e"]);
    assert_eq!(wrap_line("ab abcdefgh cd e", 4), ["ab", "abcd", "efgh", "cd e"]);
}

#[test]
fn no_width_counts_as_one() {
    assert_eq!(wrap_line("ab c", 0), ["a", "b", "c"]);
}

#[test]
fn width_counts_characters() {
    assert_eq!(wrap_line("\u{e9}\u{e9}\u{e9} \u{e9}", 3), ["\u{e9}\u{e9}\u{e9}", "\u{e9}"]);
}

#[test]
fn wrapping_keeps_what_is_not_space() {
    let line = "  some words, and_a_rather_long_one  between   spaces ";
    for width in 1..20 {
        let lines = wrap_line(line, width);
        assert!(!lines.is_empty());
        assert!(lines.iter().all(|l| l.chars().count() <= width));
        assert_eq!(lines.concat().replace(' ', ""), line.replace(' ', ""));
    }
    let words: Vec<String> = line.split_whitespace().map(|w| w.to_string()).collect();
    let wrapped: Vec<String> = wrap_line(line, 21)
        .iter()
        .flat_map(|l| l.split_whitespace().map(|w| w.to_string()).collect::<Vec<String>>())
        .collect();
    assert_eq!(wrapped, words);
}

#[test]
fn cache_shows_what_wrapping_anew_would() {
    let output: Vec<String> = vec![
        "one two three".to_string(),
        String::new(),
        "abcdefghij".to_string(),
        "end".to_string(),
    ];
    let mut cache = WrapCache::new();
    assert!(!cache.is_built());
    assert_eq!(cache.total(), 0);
    assert!(cache.visible_slice(0, 5).is_empty());
    cache.rebuild(&output, 5);
    cache.push("more at the end");
    assert!(cache.is_built());
    let mut all: Vec<String> = Vec::new();
    for line in &output {
        all.extend(wrap_line(line, 5));
    }
    all.extend(wrap_line("more at the end", 5));
    assert_eq!(cache.total(), 11);
    assert_eq!(all.len(), 11);
    for start in 0..13usize {
        for height in 0..13usize {
            let expected: Vec<String> = all.iter().skip(start).take(height).cloned().collect();
            assert_eq!(cache.visible_slice(start as u128, height), expected);
        }
    }
}

// ---------------------------------------------------------------------------
// The scrollback
// ---------------------------------------------------------------------------

fn filled(count: usize) -> App {
    let mut app = App::new();
    for i in 0..count {
        app.push_output(format!("line {}", i));
    }
    app
}

#[test]
fn a_fresh_state_shows_help() {
    let mut app = App::new();
    assert_eq!(app.output().len(), 4);
    assert_eq!(
        app.visible_output(100, 10),
        [
            "Welcome! Type a message and press Enter to submit.",
            "Use PageUp / PageDown to scroll this output area.",
            "Try /connect irc.libera.chat:6667, or /connect --tls irc.libera.chat:6697.",
            "Also: /alias name { ...commands... }, /if $1 == foo { ... }, /load <file>.",
        ]
    );
    assert_eq!(app.visible_input(20), ("> ".to_string(), 2));
}

#[test]
fn the_bottom_is_followed() {
    let mut app = filled(10);
    assert_eq!(app.visible_output(100, 2), ["line 8", "line 9"]);
    app.push_output("line 10".to_string());
    assert_eq!(app.visible_output(100, 2), ["line 9", "line 10"]);
    assert_eq!(app.visible_output(4, 3), ["9", "line", "10"]);
    assert_eq!(app.visible_output(100, 1), ["line 10"]);
}

#[test]
fn a_scrolled_view_stays_where_it_is() {
    let mut app = filled(10);
    app.visible_output(100, 4);
    app.page_up();
    assert_eq!(app.visible_output(100, 4), ["line 2", "line 3", "line 4", "line 5"]);
    app.push_output("more".to_string());
    assert_eq!(app.visible_output(100, 4), ["line 2", "line 3", "line 4", "line 5"]);
    assert_eq!(app.visible_output(100, 2), ["line 2", "line 3"]);
    assert_eq!(app.visible_output(100, 14).len(), 14);
}

#[test]
fn pages_lead_back() {
    let mut app = filled(16);
    app.visible_output(100, 5);
    assert_eq!(app.max_scroll(), 15);
    app.page_up();
    app.page_up();
    app.page_down();
    assert_eq!(app.visible_output(100, 5)[0], "line 6");
    app.page_down();
    app.push_output("last".to_string());
    assert_eq!(app.visible_output(100, 5)[4], "last");
}

#[test]
fn paging_up_stops_at_the_top() {
    let mut app = filled(3);
    app.visible_output(100, 4);
    app.page_up();
    app.page_up();
    assert_eq!(
        app.visible_output(100, 4)[0],
        "Welcome! Type a message and press Enter to submit."
    );
    app.page_down();
    app.page_down();
    assert_eq!(app.visible_output(100, 4)[3], "line 2");
}

#[test]
fn an_area_without_lines_shows_nothing() {
    let mut app = filled(3);
    assert!(app.visible_output(10, 0).is_empty());
    assert!(app.visible_output(0, 0).is_empty());
    app.push_output("x".to_string());
    assert_eq!(app.visible_output(10, 1), ["x"]);
}

// ---------------------------------------------------------------------------
// The input line
// ---------------------------------------------------------------------------

fn typed(app: &mut App, text: &str) {
    for c in text.chars() {
        app.insert_char(c);
    }
}

#[test]
fn typing_and_taking_back() {
    let mut app = App::new();
    typed(&mut app, "helo");
    app.move_left();
    app.insert_char('l');
    assert_eq!(app.visible_input(40), ("> hello".to_string(), 6));
    app.insert_char('x');
    app.backspace();
    assert_eq!(app.visible_input(40), ("> hello".to_string(), 6));
    app.move_home();
    app.backspace();
    app.delete_forward();
    assert_eq!(app.visible_input(40), ("> ello".to_string(), 2));
    app.move_left();
    app.move_end();
    app.delete_forward();
    app.move_right();
    assert_eq!(app.visible_input(40), ("> ello".to_string(), 6));
}

#[test]
fn pasting_is_typing_without_line_breaks() {
    let mut pasted = App::new();
    typed(&mut pasted, "ab");
    pasted.move_left();
    pasted.insert_str("1\r\n2\n3");
    let mut by_hand = App::new();
    typed(&mut by_hand, "ab");
    by_hand.move_left();
    typed(&mut by_hand, "123");
    assert_eq!(pasted.visible_input(40), ("> a123b".to_string(), 6));
    assert_eq!(by_hand.visible_input(40), pasted.visible_input(40));
}

#[test]
fn submitting_empties_the_line() {
    let mut app = App::new();
    assert_eq!(app.submit_input(), None);
    typed(&mut app, "\u{e9}t\u{e9}");
    assert_eq!(app.submit_input(), Some("\u{e9}t\u{e9}".to_string()));
    assert_eq!(app.submit_input(), None);
    assert_eq!(app.visible_input(40), ("> ".to_string(), 2));
}

#[test]
fn the_cursor_stays_visible() {
    let mut app = App::new();
    typed(&mut app, "abcdefghij");
    assert_eq!(app.visible_input(7), ("> ghij".to_string(), 6));
    app.move_home();
    assert_eq!(app.visible_input(7), ("> abcde".to_string(), 2));
    for _ in 0..5 {
        app.move_right();
    }
    assert_eq!(app.visible_input(7), ("> bcdef".to_string(), 6));
    assert_eq!(app.visible_input(20), ("> abcdefghij".to_string(), 7));
    app.move_end();
    assert_eq!(app.visible_input(12), ("> bcdefghij".to_string(), 11));
    assert_eq!(app.visible_input(2), ("> ".to_string(), 2));
    assert_eq!(app.visible_input(0), ("> ".to_string(), 2));
}

#[test]
fn shorter_lines_leave_no_gap() {
    let mut app = App::new();
    typed(&mut app, "abcdefghij");
    app.visible_input(7);
    app.backspace();
    app.backspace();
    assert_eq!(app.visible_input(7), ("> efgh".to_string(), 6));
}

#[test]
fn keys_do_what_they_say() {
    let mut app = App::new();
    for key in [Key::Char('a'), Key::Char('c'), Key::Left, Key::Char('b'), Key::End] {
        assert!(matches!(app.press_key(key, false), KeyOutcome::Continue));
    }
    assert_eq!(app.visible_input(40), ("> abc".to_string(), 5));
    for key in [Key::Backspace, Key::Home, Key::Right, Key::Delete, Key::Delete, Key::Other] {
        assert!(matches!(app.press_key(key, true), KeyOutcome::Continue));
    }
    assert_eq!(app.visible_input(40), ("> a".to_string(), 3));
    assert!(matches!(app.press_key(Key::Esc, false), KeyOutcome::Quit));
    assert!(matches!(app.press_key(Key::Char('c'), true), KeyOutcome::Quit));
    assert!(matches!(app.press_key(Key::Char('x'), true), KeyOutcome::Continue));
    match app.press_key(Key::Enter, false) {
        KeyOutcome::Submit(line) => assert_eq!(line, "ax"),
        _ => panic!("not submitted"),
    }
    assert!(matches!(app.press_key(Key::Enter, false), KeyOutcome::Continue));
}

#[test]
fn page_keys_scroll() {
    let mut app = filled(10);
    app.visible_output(100, 4);
    app.press_key(Key::PageUp, false);
    assert_eq!(app.visible_output(100, 4)[0], "line 2");
    app.press_key(Key::PageDown, false);
    assert_eq!(app.visible_output(100, 4)[0], "line 6");
}
