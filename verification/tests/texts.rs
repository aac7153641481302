//! Texts and numbers, held against the standard library.

use irc_tui::number::{parse_port, push_decimal};
use irc_tui::text::{
    begins_with, chars_of, find_last, find_pair, is_white_space, join_strings, lowercase, same_text,
    split_words, trim_chars,
};

const SAMPLES: [&str; 12] = [
    "",
    " ",
    "word",
    "  two words ",
    "tabs\tand\u{a0}others\u{2003}",
    "\u{3000}x\u{85}",
    "MiXeD \u{c9}\u{e9} 123",
    "a:b:c",
    "trailing:",
    " : :",
    "--tls",
    "line\r\nbreak\u{2028}",
];

#[test]
fn white_space_is_that_of_unicode() {
    for code in 0..=0x10ffff_u32 {
        if let Some(c) = char::from_u32(code) {
            assert_eq!(is_white_space(c), c.is_whitespace(), "{:x}", code);
        }
    }
}

#[test]
fn texts_are_cut_as_usual() {
    for s in SAMPLES {
        let v = chars_of(s);
        let trimmed: String = trim_chars(&v).into_iter().collect();
        assert_eq!(trimmed, s.trim());
        let words: Vec<String> = s.split_whitespace().map(|w| w.to_string()).collect();
        assert_eq!(split_words(&v), words);
        assert_eq!(join_strings(&words), words.join(" "));
        assert_eq!(split_words(&chars_of(&words.join(" "))), words);
        assert_eq!(lowercase(s), s.to_ascii_lowercase());
    }
}

#[test]
fn texts_are_searched_as_usual() {
    for s in SAMPLES {
        let v = chars_of(s);
        for n in 0..=v.len() {
            assert_eq!(find_last(&v, n, ':'), v[..n].iter().rposition(|c| *c == ':'));
        }
        assert_eq!(find_pair(&v, 0, ' ', ':'), v.windows(2).position(|w| w == [' ', ':']));
        for t in SAMPLES {
            assert_eq!(begins_with(&v, t), s.starts_with(t));
            assert_eq!(same_text(s, t), s == t);
        }
    }
}

#[test]
fn ports_are_read_as_usual() {
    for s in [
        "0", "7", "007", "65535", "65536", "+1", "+", "-1", "", "1 ", "12a", "++1",
        "99999999999999999999999999", "0000000000000000000000000000080",
    ] {
        assert_eq!(parse_port(&chars_of(s), 0), s.parse::<u16>().ok(), "{}", s);
    }
}

#[test]
fn numbers_are_written_as_usual() {
    for n in 0..=65535_u16 {
        let mut out = String::new();
        push_decimal(&mut out, n);
        assert_eq!(out, n.to_string());
        assert_eq!(parse_port(&chars_of(&out), 0), Some(n));
    }
}
