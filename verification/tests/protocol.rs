//! Protocol lines, connect arguments and connections.

use irc_tui::irc::{format_irc_line, parse_connect_args, parse_irc_line};
use irc_tui::link::{address, scheme, Connection, LinkAction, LinkEvent, Phase};

fn parts(line: &str) -> (Option<String>, String, Vec<String>) {
    let m = parse_irc_line(line);
    (m.prefix, m.command, m.params)
}

fn some(s: &str) -> Option<String> {
    Some(s.to_string())
}

// ---------------------------------------------------------------------------
// Messages
// ---------------------------------------------------------------------------

#[test]
fn lines_are_cut_into_their_parts() {
    let (prefix, command, params) = parts(":nick!u@h PRIVMSG #chan :hello : there");
    assert_eq!(prefix, some("nick!u@h"));
    assert_eq!(command, "PRIVMSG");
    assert_eq!(params, ["#chan", "hello : there"]);
}

#[test]
fn parts_may_be_missing() {
    let (prefix, command, params) = parts("PING");
    assert_eq!((prefix, command.as_str(), params.len()), (None, "PING", 0));
    let (prefix, command, params) = parts(":server");
    assert_eq!((prefix, command.as_str(), params.len()), (some("server"), "", 0));
    let (prefix, command, params) = parts("");
    assert_eq!((prefix, command.as_str(), params.len()), (None, "", 0));
    let (prefix, command, params) = parts(": x");
    assert_eq!((prefix, command.as_str(), params.len()), (some(""), "x", 0));
    let (_, command, params) = parts(" :only");
    assert_eq!(command, "");
    assert_eq!(params, ["only"]);
}

#[test]
fn white_space_separates_middle_parameters() {
    let (_, command, params) = parts("MODE  #a\t+o   x");
    assert_eq!(command, "MODE");
    assert_eq!(params, ["#a", "+o", "x"]);
    let (_, command, params) = parts("JOIN #a :");
    assert_eq!(command, "JOIN");
    assert_eq!(params, ["#a", ""]);
}

#[test]
fn composed_lines_are_read_back() {
    let line = format!(":{} {} {} :{}", "me", "CMD", ["a", "b:c"].join(" "), "the  rest :x");
    let (prefix, command, params) = parts(&line);
    assert_eq!(prefix, some("me"));
    assert_eq!(command, "CMD");
    assert_eq!(params, ["a", "b:c", "the  rest :x"]);
    let (prefix, command, params) = parts("CMD a b:c");
    assert_eq!((prefix, command.as_str()), (None, "CMD"));
    assert_eq!(params, ["a", "b:c"]);
}

#[test]
fn numeric_replies() {
    assert_eq!(parse_irc_line(":s 001 me :hi").numeric(), Some(1));
    assert_eq!(parse_irc_line(":s 376 me").numeric(), Some(376));
    assert_eq!(parse_irc_line("PING").numeric(), None);
    assert_eq!(parse_irc_line("12").numeric(), None);
    assert_eq!(parse_irc_line("1234").numeric(), None);
    assert_eq!(parse_irc_line("12a").numeric(), None);
}

#[test]
fn numbers_are_not_shown() {
    assert_eq!(format_irc_line(":srv 001 me :Welcome to IRC"), "srv me Welcome to IRC");
    assert_eq!(format_irc_line(":srv 376 me :Welcome to IRC"), "srv me Welcome to IRC");
    assert_eq!(format_irc_line("353 a b"), "a b");
    assert_eq!(format_irc_line(":n PRIVMSG #c :hi"), "n PRIVMSG #c hi");
    assert_eq!(format_irc_line("PING :token"), "PING token");
    assert_eq!(format_irc_line("NOTICE :  "), "NOTICE");
    assert_eq!(format_irc_line(""), "");
}

// ---------------------------------------------------------------------------
// Connect arguments
// ---------------------------------------------------------------------------

#[test]
fn ports_have_defaults() {
    assert_eq!(parse_connect_args("irc.libera.chat"), Some(("irc.libera.chat".to_string(), 6667, false)));
    assert_eq!(
        parse_connect_args("--tls irc.libera.chat"),
        Some(("irc.libera.chat".to_string(), 6697, true))
    );
    assert_eq!(parse_connect_args(" -tls  host "), Some(("host".to_string(), 6697, true)));
}

#[test]
fn ports_can_be_given() {
    assert_eq!(parse_connect_args("host:7000"), Some(("host".to_string(), 7000, false)));
    assert_eq!(parse_connect_args("--tls host:+80"), Some(("host".to_string(), 80, true)));
    assert_eq!(parse_connect_args("[::1]:7000"), Some(("[::1]".to_string(), 7000, false)));
    assert_eq!(parse_connect_args("host:65535"), Some(("host".to_string(), 65535, false)));
    assert_eq!(parse_connect_args("a:b:80"), Some(("a:b".to_string(), 80, false)));
    assert_eq!(parse_connect_args("x::80"), Some(("x:".to_string(), 80, false)));
    assert_eq!(parse_connect_args("12345::80"), Some(("12345:".to_string(), 80, false)));
    assert_eq!(parse_connect_args("1::2::80"), Some(("1::2:".to_string(), 80, false)));
    assert_eq!(
        parse_connect_args("1:2:3:4:5:6:7:8:80"),
        Some(("1:2:3:4:5:6:7:8".to_string(), 80, false))
    );
    assert_eq!(
        parse_connect_args("1::3:4:5:6:7:8:80"),
        Some(("1::3:4:5:6:7:8".to_string(), 80, false))
    );
    assert_eq!(parse_connect_args(":1"), Some(("".to_string(), 1, false)));
}

#[test]
fn what_is_no_port_belongs_to_the_host() {
    assert_eq!(parse_connect_args("host:65536"), Some(("host:65536".to_string(), 6667, false)));
    assert_eq!(parse_connect_args("fe80::abcd"), Some(("fe80::abcd".to_string(), 6667, false)));
    assert_eq!(parse_connect_args("::1"), Some(("::1".to_string(), 6667, false)));
    assert_eq!(parse_connect_args("--tls ::1"), Some(("::1".to_string(), 6697, true)));
    assert_eq!(
        parse_connect_args("2001:db8:0:1:2:3:4:5"),
        Some(("2001:db8:0:1:2:3:4:5".to_string(), 6667, false))
    );
    assert_eq!(parse_connect_args("fe80::12:34"), Some(("fe80::12:34".to_string(), 6667, false)));
    assert_eq!(parse_connect_args("::1:7000"), Some(("::1:7000".to_string(), 6667, false)));
    assert_eq!(parse_connect_args("[::1]"), Some(("[::1]".to_string(), 6667, false)));
    assert_eq!(parse_connect_args("host:"), Some(("host:".to_string(), 6667, false)));
    assert_eq!(parse_connect_args("host:+"), Some(("host:+".to_string(), 6667, false)));
}

#[test]
fn nothing_names_no_server() {
    assert_eq!(parse_connect_args(""), None);
    assert_eq!(parse_connect_args("  \t"), None);
    assert_eq!(parse_connect_args("--tls"), None);
    assert_eq!(parse_connect_args("-tls  "), None);
}

#[test]
fn addresses_and_schemes() {
    for port in [0u16, 7, 10, 6697, 65535] {
        assert_eq!(address("h", port), format!("h:{}", port));
        assert_eq!(parse_connect_args(&address("h", port)), Some(("h".to_string(), port, false)));
    }
    assert_eq!((scheme(true), scheme(false)), (" (TLS)", " (plaintext)"));
}

// ---------------------------------------------------------------------------
// Connections
// ---------------------------------------------------------------------------

fn told(actions: Vec<LinkAction>) -> Vec<String> {
    actions
        .into_iter()
        .map(|a| match a {
            LinkAction::Handshake => "handshake".to_string(),
            LinkAction::Show(line) => format!("show {}", line),
            LinkAction::Write(text) => format!("write {}", text),
        })
        .collect()
}

fn plain() -> Connection {
    Connection::new("h".to_string(), 6667, false)
}

#[test]
fn a_connection_registers_itself() {
    let mut c = plain();
    assert_eq!((c.address().as_str(), c.host(), c.phase()), ("h:6667", "h", Phase::Dialing));
    assert_eq!(
        told(c.handle(LinkEvent::Dialed(Ok(())))),
        [
            "show * Connected to h:6667 (plaintext)",
            "write NICK tui_user\r\n",
            "write USER tui_user 0 * :Rust TUI IRC client\r\n",
        ]
    );
    assert_eq!(c.phase(), Phase::Open);
}

#[test]
fn tls_comes_before_registration() {
    let mut c = Connection::new("h".to_string(), 6697, true);
    assert!(told(c.handle(LinkEvent::Outgoing("too early".to_string()))).is_empty());
    assert_eq!(told(c.handle(LinkEvent::Dialed(Ok(())))), ["handshake"]);
    assert_eq!(c.phase(), Phase::Securing);
    assert_eq!(
        told(c.handle(LinkEvent::Secured(Ok(())))),
        [
            "show * Connected to h:6697 (TLS)",
            "write NICK tui_user\r\n",
            "write USER tui_user 0 * :Rust TUI IRC client\r\n",
        ]
    );
}

#[test]
fn failures_end_a_connection() {
    let mut c = plain();
    assert_eq!(
        told(c.handle(LinkEvent::Dialed(Err("refused".to_string())))),
        ["show * Connection to h:6667 failed: refused"]
    );
    assert_eq!(c.phase(), Phase::Closed);
    let mut c = Connection::new("h".to_string(), 6697, true);
    c.handle(LinkEvent::Dialed(Ok(())));
    assert_eq!(
        told(c.handle(LinkEvent::Secured(Err("bad name".to_string())))),
        ["show * TLS handshake with h:6697 failed: bad name"]
    );
    assert!(told(c.handle(LinkEvent::Received("x".to_string()))).is_empty());
    assert_eq!(c.phase(), Phase::Closed);
}

#[test]
fn lines_are_shown_and_pings_answered() {
    let mut c = plain();
    c.handle(LinkEvent::Dialed(Ok(())));
    assert_eq!(told(c.handle(LinkEvent::Received(":s 001 x".to_string()))), ["show :s 001 x"]);
    assert_eq!(
        told(c.handle(LinkEvent::Received("PING :a b".to_string()))),
        ["write PONG :a b\r\n", "show PING :a b"]
    );
    assert_eq!(
        told(c.handle(LinkEvent::Received(":s ping one two".to_string()))),
        ["write PONG :two\r\n", "show :s ping one two"]
    );
    assert_eq!(
        told(c.handle(LinkEvent::Received("PING".to_string()))),
        ["write PONG :\r\n", "show PING"]
    );
}

#[test]
fn lines_go_out_with_their_ends() {
    let mut c = plain();
    c.handle(LinkEvent::Dialed(Ok(())));
    assert_eq!(
        told(c.handle(LinkEvent::Outgoing("JOIN #a".to_string()))),
        ["write JOIN #a", "write \r\n"]
    );
}

#[test]
fn connections_end() {
    let mut c = plain();
    c.handle(LinkEvent::Dialed(Ok(())));
    assert_eq!(told(c.handle(LinkEvent::Ended)), ["show * Disconnected from h:6667"]);
    assert!(told(c.handle(LinkEvent::Ended)).is_empty());
    let mut c = plain();
    c.handle(LinkEvent::Dialed(Ok(())));
    assert_eq!(
        told(c.handle(LinkEvent::Broken("reset".to_string()))),
        ["show * Read error from h:6667: reset"]
    );
    let mut c = plain();
    c.handle(LinkEvent::Dialed(Ok(())));
    assert!(told(c.handle(LinkEvent::Unheard)).is_empty());
    assert_eq!(c.phase(), Phase::Closed);
}
