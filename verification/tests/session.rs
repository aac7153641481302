//! What submitted lines do.

use irc_tui::app::Key;
use irc_tui::client::{Client, Effect, UiEvent};
use irc_tui::host::NumberOrder;
use irc_tui::interp::Interpreter;
use irc_tui::outside::Outside;
use irc_tui::text::split_lines;

/// A world with one file.
fn read(path: &str) -> Result<String, String> {
    if path == "start" {
        Ok("echo from file\nraw FROM FILE".to_string())
    } else {
        Err(format!("{} is missing", path))
    }
}

/// A world in which no text is a number.
fn no_numbers(_left: &str, _right: &str) -> Option<NumberOrder> {
    None
}

fn effects(client: &mut Client) -> Vec<String> {
    client
        .take_effects()
        .into_iter()
        .map(|e| match e {
            Effect::Connect { host, port, tls } => format!("connect {} {} {}", host, port, tls),
            Effect::Send(line) => format!("send {}", line),
        })
        .collect()
}

/// Submits the lines; gives what was put out after the welcome, and what is
/// to be done on the network.
fn submit(lines: &[&str]) -> (Vec<String>, Vec<String>) {
    let mut client = Client::new();
    let mut interpreter = Interpreter::new();
    let outside = Outside::new(read, no_numbers);
    for line in lines {
        client.handle_submitted_line(line.to_string(), &mut interpreter, &outside);
    }
    let output = client.app.output()[4..].to_vec();
    let done = effects(&mut client);
    assert!(effects(&mut client).is_empty());
    (output, done)
}

#[test]
fn chat_is_shown_without_a_connection() {
    let (output, done) = submit(&["hello there", ""]);
    assert_eq!(output, ["> hello there", "> "]);
    assert!(done.is_empty());
}

#[test]
fn chat_is_sent_over_a_connection() {
    let (output, done) = submit(&["/connect host", "hello"]);
    assert_eq!(output, ["* Connecting to host:6667 (plaintext)..."]);
    assert_eq!(done, ["connect host 6667 false", "send hello"]);
}

#[test]
fn connect_needs_a_host() {
    let (output, done) = submit(&["/connect", "/connect --tls"]);
    let usage = "Usage: connect [--tls] <host[:port]>";
    assert_eq!(output, [usage, usage]);
    assert!(done.is_empty());
}

#[test]
fn connect_with_tls() {
    let (output, done) = submit(&["/connect --tls irc.libera.chat:6697"]);
    assert_eq!(output, ["* Connecting to irc.libera.chat:6697 (TLS)..."]);
    assert_eq!(done, ["connect irc.libera.chat 6697 true"]);
}

#[test]
fn messages_and_raw_lines() {
    let (output, done) = submit(&["/msg a b", "/raw JOIN #x", "/connect h", "/msg #c hi  you", "/raw JOIN #x"]);
    assert_eq!(
        output,
        ["Not connected.", "Not connected.", "* Connecting to h:6667 (plaintext)..."]
    );
    assert_eq!(done, ["connect h 6667 false", "send PRIVMSG #c :hi you", "send JOIN #x"]);
}

#[test]
fn messages_and_raw_lines_need_arguments() {
    let (output, done) = submit(&["/connect h", "/msg", "/msg you", "/raw"]);
    assert_eq!(
        output[1..],
        [
            "Usage: msg <target> <text...>",
            "Usage: msg <target> <text...>",
            "Usage: raw <irc line...>"
        ]
    );
    assert_eq!(done, ["connect h 6667 false"]);
}

#[test]
fn echo_and_unknown_commands() {
    let (output, _) = submit(&["/echo a \"b  c\"", "/nope x", "/"]);
    assert_eq!(output, ["a b  c", "Unknown command: nope"]);
}

#[test]
fn scripts_span_lines_of_input() {
    let (output, done) = submit(&[
        "/alias go { connect $1; msg #c $2 }",
        "/go h hello",
        "/if a < b { echo less }",
        "/load start",
        "/load nothing",
    ]);
    assert_eq!(
        output,
        [
            "Alias 'go' defined.",
            "* Connecting to h:6667 (plaintext)...",
            "less",
            "from file",
            "! could not read nothing: nothing is missing",
        ]
    );
    assert_eq!(done, ["connect h 6667 false", "send PRIVMSG #c :hello", "send FROM FILE"]);
}

#[test]
fn parse_errors_are_shown_line_by_line() {
    let (output, done) = submit(&["/echo \"open"]);
    assert_eq!(
        output,
        [
            "! parse error:",
            " --> 1:6",
            "  |",
            "1 | echo \"open",
            "  |      ^---",
            "  |",
            "  = expected argument",
        ]
    );
    assert!(done.is_empty());
}

#[test]
fn errors_are_marked() {
    let mut client = Client::new();
    client.report_error("trouble");
    client.report_parse_error("one\r\ntwo\n\nthree\r");
    assert_eq!(
        client.app.output()[4..],
        ["! trouble", "! parse error:", "one", "two", "", "three\r"]
    );
}

#[test]
fn lines_end_as_lines_do() {
    for text in ["", "\n", "a", "a\n", "a\r\nb\rc\n\r\n", "\r", "a\n\nb"] {
        let expected: Vec<String> = text.lines().map(|l| l.to_string()).collect();
        assert_eq!(split_lines(text), expected);
    }
}

#[test]
fn received_lines_are_shown_formatted() {
    let mut client = Client::new();
    client.receive(":srv 372 me :- message of the day");
    assert_eq!(client.app.output()[4], "srv me - message of the day");
}

#[test]
fn events_lead_to_what_they_ask_for() {
    let mut client = Client::new();
    let mut interpreter = Interpreter::new();
    let outside = Outside::new(read, no_numbers);
    let key = |key, pressed| UiEvent::Key { key, control: false, pressed };
    for event in [
        UiEvent::Paste("/connect\n h".to_string()),
        key(Key::Char('x'), false),
        key(Key::Char('o'), true),
        UiEvent::Other,
        key(Key::Enter, true),
        UiEvent::Line(":s 001 me :hi".to_string()),
        key(Key::Char('y'), true),
        key(Key::Enter, true),
    ] {
        assert!(client.handle_event(event, &mut interpreter, &outside));
    }
    assert_eq!(
        client.app.output()[4..],
        ["* Connecting to ho:6667 (plaintext)...", "s me hi"]
    );
    assert_eq!(effects(&mut client), ["connect ho 6667 false", "send y"]);
    assert!(!client.handle_event(key(Key::Esc, true), &mut interpreter, &outside));
    assert!(client.handle_event(key(Key::Esc, false), &mut interpreter, &outside));
    assert!(!client.handle_event(UiEvent::Ended, &mut interpreter, &outside));
}

#[test]
fn questions_reach_the_world_as_they_are() {
    let outside = Outside::new(
        |path: &str| Ok(format!("if 1 < 2 {{ echo read {} }}", path)),
        |left: &str, right: &str| {
            if left == "1" && right == "2" {
                Some(NumberOrder::Less)
            } else {
                Some(NumberOrder::Greater)
            }
        },
    );
    let mut client = Client::new();
    let mut interpreter = Interpreter::new();
    for line in ["/load some.file", "/if 2 < 1 { echo wrong }", "/if 2 > 1 { echo right }"] {
        client.handle_submitted_line(line.to_string(), &mut interpreter, &outside);
    }
    assert_eq!(client.app.output()[4..], ["read some.file", "right"]);
    assert_eq!(outside.compare_numbers("1", "2"), Some(NumberOrder::Less));
    assert!(outside.read_script_file("x").is_ok());
}
