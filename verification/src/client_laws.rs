//! What holds of connections and of the client as a whole.

use vstd::prelude::*;

use crate::app::{key_pressed, one_line, Key, Screen};
use crate::ast::Statement;
use crate::client::{event_handled, line_handled, script_asks, Action, Session, UiEvent};
use crate::grammar::{command_word, script_of};
use crate::grammar_laws::{
    are_statements, is_bare, is_name, is_statement, law_plain_command, plain_args,
};
use crate::host::{all_answered, HostEvent};
use crate::interp::{block_run, reserved, resolved_args, World};
use crate::interp_laws::{
    law_alias_call, law_alias_definition, law_block_in_order, law_command_reaches_host,
    law_one_statement, law_plain_names,
};
use crate::irc::{connect_target, message_of, shown};
use crate::layout_laws::{law_layout, script_text, Layout};
use crate::link::{is_ping, last_param, Doing, Happening, Link, Phase};
use crate::number::decimal;
use crate::parser::{error_display, expectation};
use crate::subst::{law_nothing_to_replace, nothing_to_replace, substituted};
use crate::text::{join, lines_from, lower_text};

verus! {

// ---------------------------------------------------------------------------
// Connections
// ---------------------------------------------------------------------------

/// The connection after all the events, and all that was to be done.
pub open spec fn link_run(link: Link, events: Seq<Happening>) -> (Link, Seq<Doing>)
    decreases events.len(),
{
    if events.len() == 0 {
        (link, seq![])
    } else {
        let (before, done) = link_run(link, events.drop_last());
        let (after, more) = before.after(events.last());
        (after, done + more)
    }
}

/// What was written, in order.
pub open spec fn written(done: Seq<Doing>) -> Seq<Seq<char>>
    decreases done.len(),
{
    if done.len() == 0 {
        seq![]
    } else {
        match done.last() {
            Doing::Write(text) => written(done.drop_last()).push(text),
            _ => written(done.drop_last()),
        }
    }
}

/// The registration that a server waits for.
pub open spec fn registration() -> Seq<Seq<char>> {
    seq!["NICK tui_user\r\n"@, "USER tui_user 0 * :Rust TUI IRC client\r\n"@]
}

proof fn lemma_written_concat(a: Seq<Doing>, b: Seq<Doing>)
    ensures
        written(a + b) == written(a) + written(b),
    decreases b.len(),
{
    if b.len() == 0 {
        assert(a + b =~= a);
        assert(written(a) + written(b) =~= written(a));
    } else {
        assert((a + b).drop_last() =~= a + b.drop_last());
        lemma_written_concat(a, b.drop_last());
        assert(written(a + b) =~= written(a) + written(b));
    }
}

proof fn lemma_greeting_written(link: Link)
    ensures
        written(link.greeting()) == registration(),
{
    let g = link.greeting();
    reveal_with_fuel(written, 4);
    assert(g.drop_last().drop_last().drop_last() =~= seq![]);
    assert(written(g) =~= registration());
}

/// Once a connection is over, nothing more is done on it.
pub proof fn law_over_is_over(link: Link, event: Happening)
    requires
        link.phase == Phase::Closed,
    ensures
        link.after(event) == (link, Seq::<Doing>::empty()),
{
}

/// A connection never goes back: not from over to open, and not from open to
/// being made.
pub proof fn law_phases_go_on(link: Link, event: Happening)
    ensures
        link.phase == Phase::Open ==> link.after(event).0.phase == Phase::Open || link.after(
            event,
        ).0.phase == Phase::Closed,
        link.phase == Phase::Securing ==> link.after(event).0.phase != Phase::Dialing,
        link.after(event).0.address() == link.address(),
{
}

/// With TLS nothing is written before the handshake is done.
pub proof fn law_handshake_first(link: Link, event: Happening)
    requires
        link.tls,
        link.phase == Phase::Dialing || link.phase == Phase::Securing,
        link.phase == Phase::Securing ==> !(event is Secured && event->Secured_0 is Ok),
    ensures
        written(link.after(event).1).len() == 0,
{
    reveal_with_fuel(written, 2);
}

/// Whatever happens on a connection, the registration is written before
/// anything else, and as soon as the connection is open.
pub proof fn law_registration_first(link: Link, events: Seq<Happening>)
    requires
        link.phase == Phase::Dialing,
    ensures
        ({
            let (after, done) = link_run(link, events);
            &&& written(done).len() == 0 || registration().is_prefix_of(written(done))
            &&& after.phase == Phase::Open ==> registration().is_prefix_of(written(done))
            &&& after.phase == Phase::Dialing || after.phase == Phase::Securing ==> written(
                done,
            ).len() == 0
        }),
    decreases events.len(),
{
    if events.len() > 0 {
        law_registration_first(link, events.drop_last());
        let (before, done) = link_run(link, events.drop_last());
        let (after, more) = before.after(events.last());
        lemma_written_concat(done, more);
        lemma_greeting_written(before);
        reveal_with_fuel(written, 2);
        let all = written(done + more);
        if before.phase == Phase::Dialing || before.phase == Phase::Securing {
            assert(all =~= written(more));
            assert(registration().is_prefix_of(registration()));
        } else if registration().is_prefix_of(written(done)) {
            let n = registration().len() as int;
            assert(all.subrange(0, n) =~= written(done).subrange(0, n));
        }
    }
}

/// The texts put together, in order.
pub open spec fn glued(texts: Seq<Seq<char>>) -> Seq<char>
    decreases texts.len(),
{
    if texts.len() == 0 {
        seq![]
    } else {
        glued(texts.drop_last()) + texts.last()
    }
}

/// Every line that an open connection receives is shown, once, as it is and
/// as the last thing that is done with it, whatever its command; all else
/// that is done is to write, and the connection stays open.
pub proof fn law_received_is_shown(link: Link, line: Seq<char>)
    requires
        link.phase == Phase::Open,
    ensures
        ({
            let (after, done) = link.after(Happening::Received(line));
            &&& after == link
            &&& done.len() > 0
            &&& done.last() == Doing::Show(line)
            &&& forall|i: int| 0 <= i < done.len() - 1 ==> #[trigger] done[i] is Write
        }),
{
}

/// Something is written for a received line if and only if its command is
/// `PING`, in whatever case.
pub proof fn law_pings_are_answered(link: Link, line: Seq<char>)
    requires
        link.phase == Phase::Open,
    ensures
        ({
            let done = link.after(Happening::Received(line)).1;
            let c = message_of(line).command;
            &&& written(done).len() <= 1
            &&& written(done).len() == 1 <==> c.len() == 4 && (c[0] == 'p' || c[0] == 'P') && (c[1]
                == 'i' || c[1] == 'I') && (c[2] == 'n' || c[2] == 'N') && (c[3] == 'g' || c[3]
                == 'G')
        }),
{
    let done = link.after(Happening::Received(line)).1;
    let c = message_of(line).command;
    reveal_with_fuel(written, 3);
    reveal_strlit("ping");
    assert("ping"@.len() == 4);
    let low = lower_text(c);
    assert(low.len() == c.len());
    if is_ping(line) {
        assert(low[0] == "ping"@[0] && low[1] == "ping"@[1] && low[2] == "ping"@[2] && low[3]
            == "ping"@[3]);
    } else if c.len() == 4 {
        if low[0] == 'p' && low[1] == 'i' && low[2] == 'n' && low[3] == 'g' {
            assert(low =~= "ping"@);
        }
    }
}

/// The answer to a keepalive request gives back the request's last parameter,
/// whole; a request without parameters is answered with an empty one.
pub proof fn law_ping_token(link: Link, token: Seq<char>, params: Seq<Seq<char>>, line: Seq<char>)
    requires
        link.phase == Phase::Open,
        is_ping(line),
        message_of(line).params == params.push(token) || (message_of(line).params.len() == 0
            && token.len() == 0),
    ensures
        written(link.after(Happening::Received(line)).1) == seq![
            "PONG :"@ + token + seq!['\r', '\n'],
        ],
{
    let done = link.after(Happening::Received(line)).1;
    reveal_with_fuel(written, 3);
    reveal_strlit("\r\n");
    assert("\r\n"@ =~= seq!['\r', '\n']);
    assert(token =~= last_param(message_of(line).params));
    assert(done.drop_last().drop_last() =~= seq![]);
    assert(written(done) =~= seq!["PONG :"@ + token + "\r\n"@]);
}

/// A line that is to be sent is written whole, followed by carriage return
/// and line feed, and nothing else is done.
pub proof fn law_outgoing_is_written(link: Link, line: Seq<char>)
    requires
        link.phase == Phase::Open,
    ensures
        ({
            let (after, done) = link.after(Happening::Outgoing(line));
            &&& after == link
            &&& forall|i: int| 0 <= i < done.len() ==> #[trigger] done[i] is Write
            &&& glued(written(done)) == line + seq!['\r', '\n']
        }),
{
    let done = link.after(Happening::Outgoing(line)).1;
    reveal_with_fuel(written, 3);
    reveal_with_fuel(glued, 3);
    reveal_strlit("\r\n");
    assert("\r\n"@ =~= seq!['\r', '\n']);
    assert(written(done) =~= seq![line, "\r\n"@]);
    let w = written(done);
    assert(w.drop_last() =~= seq![line]);
    assert(w.drop_last().drop_last() =~= seq![]);
    assert(glued(w) =~= line + seq!['\r', '\n']);
}

/// A connection that was made is open at once without TLS, and with TLS once
/// the handshake is done, which is asked for before that. When it is open,
/// the user is told where to and how, and the server gets the registration.
pub proof fn law_connection_opens(link: Link)
    ensures
        link.phase == Phase::Dialing && link.tls ==> link.after(Happening::Dialed(Ok(()))) == (
            Link { phase: Phase::Securing, ..link },
            seq![Doing::Handshake],
        ),
        ({
            let event = if link.tls {
                Happening::Secured(Ok(()))
            } else {
                Happening::Dialed(Ok(()))
            };
            let (after, done) = link.after(event);
            let place = link.host + seq![':'] + decimal(link.port as nat);
            link.phase == (if link.tls {
                Phase::Securing
            } else {
                Phase::Dialing
            }) ==> {
                &&& after == (Link { phase: Phase::Open, ..link })
                &&& done.len() == 3
                &&& done[0] == Doing::Show(
                    "* Connected to "@ + place + (if link.tls {
                        " (TLS)"@
                    } else {
                        " (plaintext)"@
                    }),
                )
                &&& written(done) == registration()
            }
        }),
{
    lemma_greeting_written(link);
    assert(link.host + seq![':'] + decimal(link.port as nat) =~= link.address());
}

/// A connection that cannot be made, is closed by the server or breaks is
/// over, and the user is told so with the address, and the reason where there
/// is one; nothing is written.
pub proof fn law_connection_ends(link: Link, reason: Seq<char>)
    ensures
        ({
            let over = Link { phase: Phase::Closed, ..link };
            let place = link.host + seq![':'] + decimal(link.port as nat);
            &&& link.phase == Phase::Dialing ==> link.after(Happening::Dialed(Err(reason))) == (
                over,
                seq![Doing::Show("* Connection to "@ + place + " failed: "@ + reason)],
            )
            &&& link.phase == Phase::Securing ==> link.after(Happening::Secured(Err(reason))) == (
                over,
                seq![Doing::Show("* TLS handshake with "@ + place + " failed: "@ + reason)],
            )
            &&& link.phase == Phase::Open ==> link.after(Happening::Ended) == (
                over,
                seq![Doing::Show("* Disconnected from "@ + place)],
            )
            &&& link.phase == Phase::Open ==> link.after(Happening::Broken(reason)) == (
                over,
                seq![Doing::Show("* Read error from "@ + place + ": "@ + reason)],
            )
            &&& link.phase == Phase::Open ==> link.after(Happening::Unheard) == (
                over,
                Seq::<Doing>::empty(),
            )
        }),
{
    assert(link.host + seq![':'] + decimal(link.port as nat) =~= link.address());
}

/// An open connection is left by nothing but its end, a failure to read, and
/// the end of the user interface.
pub proof fn law_connection_stays_open(link: Link, event: Happening)
    requires
        link.phase == Phase::Open,
        !(event is Ended),
        !(event is Broken),
        !(event is Unheard),
    ensures
        link.after(event).0 == link,
{
}

/// All lines that come in over an open connection are shown, in order and
/// each as it is.
pub proof fn law_lines_shown_in_order(link: Link, lines: Seq<Seq<char>>)
    requires
        link.phase == Phase::Open,
    ensures
        ({
            let events = Seq::new(lines.len(), |i: int| Happening::Received(lines[i]));
            link_run(link, events).0 == link && told_lines(link_run(link, events).1) == lines
        }),
    decreases lines.len(),
{
    let events = Seq::new(lines.len(), |i: int| Happening::Received(lines[i]));
    if lines.len() > 0 {
        let fewer = lines.drop_last();
        law_lines_shown_in_order(link, fewer);
        assert(events.drop_last() =~= Seq::new(
            fewer.len(),
            |i: int| Happening::Received(fewer[i]),
        ));
        let done = link_run(link, events.drop_last()).1;
        let more = link.after(Happening::Received(lines.last())).1;
        law_received_is_shown(link, lines.last());
        lemma_told_lines(done, more);
        assert(events.last() == Happening::Received(lines.last()));
        reveal_with_fuel(told_lines, 3);
        assert(told_lines(more) =~= seq![lines.last()]);
        assert(fewer + seq![lines.last()] =~= lines);
    }
}

/// What was shown, in order.
pub open spec fn told_lines(done: Seq<Doing>) -> Seq<Seq<char>>
    decreases done.len(),
{
    if done.len() == 0 {
        seq![]
    } else {
        match done.last() {
            Doing::Show(line) => told_lines(done.drop_last()).push(line),
            _ => told_lines(done.drop_last()),
        }
    }
}

proof fn lemma_told_lines(a: Seq<Doing>, b: Seq<Doing>)
    ensures
        told_lines(a + b) == told_lines(a) + told_lines(b),
    decreases b.len(),
{
    if b.len() == 0 {
        assert(a + b =~= a);
        assert(told_lines(a) + told_lines(b) =~= told_lines(a));
    } else {
        assert((a + b).drop_last() =~= a + b.drop_last());
        lemma_told_lines(a, b.drop_last());
        assert(told_lines(a + b) =~= told_lines(a) + told_lines(b));
    }
}

// ---------------------------------------------------------------------------
// The client
// ---------------------------------------------------------------------------

proof fn lemma_sent_keeps(s: Session, line: Seq<char>)
    ensures
        s.screen.output.is_prefix_of(s.sent(line).screen.output),
        s.effects.is_prefix_of(s.sent(line).effects),
        s.sent(line).connected == s.connected,
        !s.connected ==> s.sent(line).effects == s.effects,
{
    let after = s.sent(line);
    assert(after.screen.output.subrange(0, s.screen.output.len() as int) =~= s.screen.output);
    assert(after.effects.subrange(0, s.effects.len() as int) =~= s.effects);
}

proof fn lemma_event_keeps(s: Session, event: HostEvent)
    ensures
        s.screen.output.is_prefix_of(s.after(event).screen.output),
        s.effects.is_prefix_of(s.after(event).effects),
        s.connected ==> s.after(event).connected,
        !s.connected && !s.after(event).connected ==> s.after(event).effects == s.effects,
        !s.connected && s.after(event).connected ==> s.after(event).effects.len()
            == s.effects.len() + 1 && s.after(event).effects.last() is Connect,
{
    let after = s.after(event);
    if let HostEvent::Ran { name, args } = event {
        if args.len() >= 2 {
            lemma_sent_keeps(
                s,
                "PRIVMSG "@ + args[0] + " :"@ + join(args.skip(1)),
            );
        }
        lemma_sent_keeps(s, join(args));
    }
    assert(after.screen.output.len() >= s.screen.output.len());
    assert(after.effects.len() >= s.effects.len());
    assert(after.screen.output.subrange(0, s.screen.output.len() as int) =~= s.screen.output);
    assert(after.effects.subrange(0, s.effects.len() as int) =~= s.effects);
}

/// What a script asks for takes nothing away from the output, from what is to
/// be done on the network, or from the connection. Without a connection
/// nothing is sent until one is made.
pub proof fn law_scripts_add(s: Session, log: Seq<HostEvent>)
    ensures
        s.screen.output.is_prefix_of(s.after_all(log).screen.output),
        s.effects.is_prefix_of(s.after_all(log).effects),
        s.connected ==> s.after_all(log).connected,
        !s.connected && !s.after_all(log).connected ==> s.after_all(log).effects == s.effects,
        !s.connected && s.after_all(log).connected ==> s.after_all(log).effects.len()
            > s.effects.len() && s.after_all(log).effects[s.effects.len() as int] is Connect,
    decreases log.len(),
{
    if log.len() == 0 {
        assert(s.screen.output.is_prefix_of(s.screen.output));
        assert(s.effects.is_prefix_of(s.effects));
    } else {
        let middle = s.after_all(log.drop_last());
        let after = s.after_all(log);
        law_scripts_add(s, log.drop_last());
        lemma_event_keeps(middle, log.last());
        let n = s.screen.output.len() as int;
        assert(after.screen.output.subrange(0, n) =~= middle.screen.output.subrange(0, n)) by {
            assert forall|i: int| 0 <= i < n implies after.screen.output[i]
                == middle.screen.output[i] by {
                assert(after.screen.output.subrange(0, middle.screen.output.len() as int)[i]
                    == after.screen.output[i]);
            }
        }
        assert forall|i: int| 0 <= i < middle.effects.len() implies after.effects[i]
            == middle.effects[i] by {
            assert(after.effects.subrange(0, middle.effects.len() as int)[i] == after.effects[i]);
        }
        let k = s.effects.len() as int;
        assert(after.effects.subrange(0, k) =~= middle.effects.subrange(0, k));
    }
}

/// What one script asks for after another is done after it.
pub proof fn law_events_in_turn(s: Session, first: Seq<HostEvent>, second: Seq<HostEvent>)
    ensures
        s.after_all(first + second) == s.after_all(first).after_all(second),
    decreases second.len(),
{
    if second.len() == 0 {
        assert(first + second =~= first);
    } else {
        assert((first + second).drop_last() =~= first + second.drop_last());
        law_events_in_turn(s, first, second.drop_last());
    }
}

/// Whether the two differ in the output alone.
pub open spec fn same_but_output(a: Session, b: Session) -> bool {
    &&& a.connected == b.connected
    &&& a.effects == b.effects
    &&& a.screen.input == b.screen.input
    &&& a.screen.cursor == b.screen.cursor
    &&& a.screen.input_scroll == b.screen.input_scroll
    &&& a.screen.scroll == b.screen.scroll
    &&& a.screen.follow_bottom == b.screen.follow_bottom
    &&& a.screen.height == b.screen.height
    &&& a.screen.width == b.screen.width
}

/// With a connection, a line that does not start with `/` is sent, whole and
/// as it is; nothing else happens.
pub proof fn law_chat_line_is_sent(
    before: Session,
    known: Map<Seq<char>, Seq<Statement>>,
    line: Seq<char>,
    answers: Set<HostEvent>,
    after: Session,
    left: Map<Seq<char>, Seq<Statement>>,
)
    requires
        line_handled(before, known, line, answers, after, left),
        line.len() > 0 ==> line[0] != '/',
        before.connected,
    ensures
        after.effects == before.effects.push(Action::Send(line)),
        after.screen == before.screen,
        after.connected,
        left == known,
{
}

/// Without a connection, a line that does not start with `/` is shown behind
/// `> `, whole and as it is; nothing else happens.
pub proof fn law_chat_line_is_shown(
    before: Session,
    known: Map<Seq<char>, Seq<Statement>>,
    line: Seq<char>,
    answers: Set<HostEvent>,
    after: Session,
    left: Map<Seq<char>, Seq<Statement>>,
)
    requires
        line_handled(before, known, line, answers, after, left),
        line.len() > 0 ==> line[0] != '/',
        !before.connected,
    ensures
        after.screen.output == before.screen.output.push(seq!['>', ' '] + line),
        same_but_output(before, after),
        left == known,
{
    reveal_strlit("> ");
    assert("> "@ =~= seq!['>', ' ']);
}

/// The text of the `echo` command is put out with single spaces between its
/// arguments, and nothing else happens.
pub proof fn law_echo(s: Session, args: Seq<Seq<char>>)
    ensures
        ({
            let after = s.after(
                HostEvent::Ran { name: seq!['e', 'c', 'h', 'o'], args },
            );
            &&& after.screen.output == s.screen.output.push(join(args))
            &&& same_but_output(s, after)
        }),
{
    reveal_strlit("echo");
    assert("echo"@ =~= seq!['e', 'c', 'h', 'o']);
}

/// `msg` sends its words behind the first as a message to the first, `raw`
/// sends its words as they are. With a connection each adds one line to what
/// is sent and shows nothing; without one, the user is told, and nothing is
/// sent.
pub proof fn law_messages_sent(s: Session, to: Seq<char>, text: Seq<Seq<char>>)
    requires
        text.len() > 0,
    ensures
        ({
            let msg = s.after(
                HostEvent::Ran { name: seq!['m', 's', 'g'], args: seq![to] + text },
            );
            let raw = s.after(HostEvent::Ran { name: seq!['r', 'a', 'w'], args: text });
            &&& s.connected ==> msg.screen == s.screen && msg.connected && msg.effects
                == s.effects.push(Action::Send("PRIVMSG "@ + to + seq![' ', ':'] + join(text)))
            &&& s.connected ==> raw.screen == s.screen && raw.connected && raw.effects
                == s.effects.push(Action::Send(join(text)))
            &&& !s.connected ==> same_but_output(s, msg) && msg.screen.output
                == s.screen.output.push("Not connected."@)
            &&& !s.connected ==> same_but_output(s, raw) && raw.screen.output
                == s.screen.output.push("Not connected."@)
        }),
{
    reveal_strlit("echo");
    reveal_strlit("connect");
    reveal_strlit("msg");
    reveal_strlit("raw");
    reveal_strlit(" :");
    assert("echo"@.len() == 4 && "connect"@.len() == 7);
    assert("msg"@ =~= seq!['m', 's', 'g']);
    assert("raw"@ =~= seq!['r', 'a', 'w']);
    assert("raw"@[0] != "msg"@[0]);
    assert(" :"@ =~= seq![' ', ':']);
    let args = seq![to] + text;
    assert(args.skip(1) =~= text);
    assert(args[0] == to);
}

/// `connect` with an argument that names a server makes a connection to it
/// and no other, tells the user where to, and lines can be sent from then on.
/// Otherwise the user is told how to use it, and nothing is done.
pub proof fn law_connect(s: Session, args: Seq<Seq<char>>)
    ensures
        ({
            let after = s.after(
                HostEvent::Ran { name: seq!['c', 'o', 'n', 'n', 'e', 'c', 't'], args },
            );
            let output = after.screen.output;
            match connect_target(join(args)) {
                Some(target) => {
                    &&& after.connected
                    &&& after.effects == s.effects.push(Action::Connect(target))
                    &&& output == s.screen.output.push(
                        "* Connecting to "@ + target.host + seq![':'] + decimal(target.port as nat)
                            + (if target.tls {
                            " (TLS)"@
                        } else {
                            " (plaintext)"@
                        }) + "..."@,
                    )
                    &&& same_but_output(
                        s,
                        Session { connected: s.connected, effects: s.effects, ..after },
                    )
                },
                None => {
                    &&& output == s.screen.output.push("Usage: connect [--tls] <host[:port]>"@)
                    &&& same_but_output(s, after)
                },
            }
        }),
{
    reveal_strlit("echo");
    reveal_strlit("connect");
    assert("echo"@.len() == 4);
    assert("connect"@ =~= seq!['c', 'o', 'n', 'n', 'e', 'c', 't']);
    if let Some(target) = connect_target(join(args)) {
        assert("* Connecting to "@ + (target.host.push(':') + decimal(target.port as nat))
            =~= "* Connecting to "@ + target.host + seq![':'] + decimal(target.port as nat));
    }
}

/// `msg` without a text, `raw` without a line and a command that there is not
/// only tell the user so.
pub proof fn law_misused_commands(s: Session, args: Seq<Seq<char>>, name: Seq<char>)
    requires
        name != "echo"@,
        name != "connect"@,
        name != "msg"@ || args.len() < 2,
        name != "raw"@ || args.len() == 0,
    ensures
        ({
            let after = s.after(HostEvent::Ran { name, args });
            &&& same_but_output(s, after)
            &&& after.screen.output == s.screen.output.push(
                if name == seq!['m', 's', 'g'] {
                    "Usage: msg <target> <text...>"@
                } else if name == seq!['r', 'a', 'w'] {
                    "Usage: raw <irc line...>"@
                } else {
                    "Unknown command: "@ + name
                },
            )
        }),
{
    reveal_strlit("msg");
    reveal_strlit("raw");
    assert("msg"@ =~= seq!['m', 's', 'g']);
    assert("raw"@ =~= seq!['r', 'a', 'w']);
    assert("raw"@[0] != "msg"@[0]);
}

/// What a script reports is shown behind `! `; what it reads and compares
/// changes nothing.
pub proof fn law_reports(
    s: Session,
    message: Seq<char>,
    path: Seq<char>,
    reply: Result<Seq<char>, Seq<char>>,
)
    ensures
        s.after(HostEvent::Reported { message }).screen.output == s.screen.output.push(
            seq!['!', ' '] + message,
        ),
        same_but_output(s, s.after(HostEvent::Reported { message })),
        s.after(HostEvent::Read { path, reply }) == s,
        s.after(HostEvent::Compared { left: path, right: message, order: None }) == s,
{
    reveal_strlit("! ");
    assert("! "@ =~= seq!['!', ' ']);
}

proof fn lemma_told_all(s: Session, lines: Seq<Seq<char>>)
    ensures
        s.told_all(lines).screen.output == s.screen.output + lines,
        same_but_output(s, s.told_all(lines)),
    decreases lines.len(),
{
    if lines.len() == 0 {
        assert(s.screen.output + lines =~= s.screen.output);
    } else {
        lemma_told_all(s, lines.drop_last());
        assert((s.screen.output + lines.drop_last()).push(lines.last()) =~= s.screen.output + lines);
    }
}

/// A script that is not well-formed runs no part of itself: it changes no
/// alias and asks for nothing on the network. The user is told that it could
/// not be read, and why, line by line.
pub proof fn law_bad_script_does_nothing(
    before: Session,
    known: Map<Seq<char>, Seq<Statement>>,
    text: Seq<char>,
    answers: Set<HostEvent>,
    after: Session,
    left: Map<Seq<char>, Seq<Statement>>,
)
    requires
        line_handled(before, known, seq!['/'] + text, answers, after, left),
        script_of(text) is Fail,
    ensures
        left == known,
        same_but_output(before, after),
        ({
            let at = script_of(text)->Fail_0;
            let why = error_display(text, text.take(at), expectation(script_of(text)->Fail_1));
            after.screen.output == before.screen.output + (seq!["! parse error:"@] + lines_from(
                why,
                0,
            ))
        }),
{
    let line = seq!['/'] + text;
    assert(line.skip(1) =~= text);
    let at = script_of(text)->Fail_0;
    let why = error_display(text, text.take(at), expectation(script_of(text)->Fail_1));
    let start = before.told("! parse error:"@);
    lemma_told_all(start, lines_from(why, 0));
    assert(start.screen.output + lines_from(why, 0) =~= before.screen.output + (seq![
        "! parse error:"@,
    ] + lines_from(why, 0)));
}

/// A line of `/` and one command that scripts do not know is that command,
/// with its arguments as they are.
pub proof fn law_slash_command(
    before: Session,
    known: Map<Seq<char>, Seq<Statement>>,
    name: Seq<char>,
    args: Seq<Seq<char>>,
    answers: Set<HostEvent>,
    after: Session,
    left: Map<Seq<char>, Seq<Statement>>,
)
    requires
        is_name(name),
        forall|i: int| 0 <= i < args.len() ==> is_bare(#[trigger] args[i]),
        forall|i: int| 0 <= i < args.len() ==> nothing_to_replace(#[trigger] args[i]),
        !reserved(command_word(name)),
        !known.contains_key(command_word(name)),
        line_handled(
            before,
            known,
            seq!['/'] + (name + plain_args(args, 0)),
            answers,
            after,
            left,
        ),
    ensures
        left == known,
        after == before.after(HostEvent::Ran { name: command_word(name), args }),
{
    let text = name + plain_args(args, 0);
    let line = seq!['/'] + text;
    assert(line.skip(1) =~= text);
    law_plain_command(name, args);
    let statement = Statement::Command { name, args, block: None };
    let list = seq![statement];
    let log = choose|log: Seq<HostEvent>| #[trigger]
        script_asks(list, known, log, left) && all_answered(answers, log, 0) && after
            == before.after_all(log);
    let w = World { aliases: known, log: seq![] };
    law_one_statement(statement, seq![], 0, w, log);
    law_command_reaches_host(name, args, None, seq![], 0, w, log);
    lemma_args_kept(args);
    assert(log == Seq::<HostEvent>::empty().push(
        HostEvent::Ran { name: command_word(name), args },
    ));
    assert(log.drop_last() =~= seq![]);
    reveal_with_fuel(Session::after_all, 2);
}

/// Whether `statement` is a command that scripts hand on, with no alias of
/// `known` in its way.
pub open spec fn is_handed_on(
    statement: Statement,
    known: Map<Seq<char>, Seq<Statement>>,
) -> bool {
    &&& statement is Command
    &&& !reserved(command_word(statement->name))
    &&& !known.contains_key(command_word(statement->name))
}

/// What such commands ask for with `args` in scope: each under the name that
/// it means, with the `$N` of its words replaced.
pub open spec fn handed_on(list: Seq<Statement>, args: Seq<Seq<char>>) -> Seq<HostEvent> {
    list.map_values(
        |statement: Statement|
            HostEvent::Ran {
                name: command_word(statement->name),
                args: statement->args.map_values(|a: Seq<char>| substituted(a, args)),
            },
    )
}

proof fn lemma_handed_on(
    list: Seq<Statement>,
    args: Seq<Seq<char>>,
    depth: nat,
    w: World,
    t: Seq<HostEvent>,
)
    requires
        depth <= 32,
        forall|i: int| 0 <= i < list.len() ==> is_handed_on(#[trigger] list[i], w.aliases),
    ensures
        block_run(list, args, depth, w, t) == (World {
            aliases: w.aliases,
            log: w.log + handed_on(list, args),
        }),
    decreases list.len(),
{
    if list.len() == 0 {
        assert(list =~= seq![]);
        law_one_statement(Statement::Command { name: seq![], args, block: None }, args, depth, w, t);
        assert(w.log + handed_on(list, args) =~= w.log);
    } else {
        let first = list.drop_last();
        let last = list.last();
        assert forall|i: int| 0 <= i < first.len() implies is_handed_on(
            #[trigger] first[i],
            w.aliases,
        ) by {
            assert(is_handed_on(list[i], w.aliases));
        }
        lemma_handed_on(first, args, depth, w, t);
        assert(is_handed_on(list[list.len() - 1], w.aliases));
        let middle = World { aliases: w.aliases, log: w.log + handed_on(first, args) };
        assert(list =~= first + seq![last]);
        law_block_in_order(first, seq![last], args, depth, w, t);
        law_one_statement(last, args, depth, middle, t);
        law_command_reaches_host(last->name, last->args, last->block, args, depth, middle, t);
        assert(resolved_args(last->args, args) =~= last->args.map_values(
            |a: Seq<char>| substituted(a, args),
        ));
        assert(w.log + handed_on(list, args) =~= middle.log.push(
            HostEvent::Ran {
                name: command_word(last->name),
                args: last->args.map_values(|a: Seq<char>| substituted(a, args)),
            },
        ));
    }
}

/// All the commands of a line that starts with `/` are done, in order and
/// each once, however the line is laid out.
pub proof fn law_slash_script(
    before: Session,
    known: Map<Seq<char>, Seq<Statement>>,
    l: Layout,
    list: Seq<Statement>,
    answers: Set<HostEvent>,
    after: Session,
    left: Map<Seq<char>, Seq<Statement>>,
)
    requires
        l.wf(),
        are_statements(list, 0),
        forall|i: int| 0 <= i < list.len() ==> is_handed_on(#[trigger] list[i], known),
        line_handled(before, known, seq!['/'] + script_text(l, list), answers, after, left),
    ensures
        left == known,
        after == before.after_all(handed_on(list, seq![])),
{
    let text = script_text(l, list);
    let line = seq!['/'] + text;
    assert(line.skip(1) =~= text);
    law_layout(l, list);
    let log = choose|log: Seq<HostEvent>| #[trigger]
        script_asks(list, known, log, left) && all_answered(answers, log, 0) && after
            == before.after_all(log);
    let w = World { aliases: known, log: seq![] };
    lemma_handed_on(list, seq![], 0, w, log);
    assert(w.log + handed_on(list, seq![]) =~= handed_on(list, seq![]));
}

/// A line that starts with `/` and names an alias does what the commands of
/// the alias ask for, with the words of the line as their arguments.
pub proof fn law_slash_alias(
    before: Session,
    known: Map<Seq<char>, Seq<Statement>>,
    name: Seq<char>,
    args: Seq<Seq<char>>,
    answers: Set<HostEvent>,
    after: Session,
    left: Map<Seq<char>, Seq<Statement>>,
)
    requires
        is_name(name),
        forall|i: int| 0 <= i < args.len() ==> is_bare(#[trigger] args[i]),
        forall|i: int| 0 <= i < args.len() ==> nothing_to_replace(#[trigger] args[i]),
        !reserved(command_word(name)),
        known.contains_key(command_word(name)),
        ({
            let body = known[command_word(name)];
            forall|i: int| 0 <= i < body.len() ==> is_handed_on(#[trigger] body[i], known)
        }),
        line_handled(
            before,
            known,
            seq!['/'] + (name + plain_args(args, 0)),
            answers,
            after,
            left,
        ),
    ensures
        left == known,
        after == before.after_all(handed_on(known[command_word(name)], args)),
{
    let text = name + plain_args(args, 0);
    let line = seq!['/'] + text;
    assert(line.skip(1) =~= text);
    law_plain_command(name, args);
    let statement = Statement::Command { name, args, block: None };
    let list = seq![statement];
    let body = known[command_word(name)];
    let log = choose|log: Seq<HostEvent>| #[trigger]
        script_asks(list, known, log, left) && all_answered(answers, log, 0) && after
            == before.after_all(log);
    let w = World { aliases: known, log: seq![] };
    law_one_statement(statement, seq![], 0, w, log);
    law_alias_call(name, args, None, seq![], 0, w, log);
    lemma_args_kept(args);
    lemma_handed_on(body, args, 1, w, log);
    assert(w.log + handed_on(body, args) =~= handed_on(body, args));
}

/// Words without `$N` are arguments as they are.
proof fn lemma_args_kept(args: Seq<Seq<char>>)
    requires
        forall|i: int| 0 <= i < args.len() ==> nothing_to_replace(#[trigger] args[i]),
    ensures
        resolved_args(args, seq![]) == args,
{
    assert forall|i: int| 0 <= i < args.len() implies substituted(args[i], seq![]) == args[i] by {
        law_nothing_to_replace(args[i], seq![]);
    }
    assert(resolved_args(args, seq![]) =~= args);
}

/// A line that defines an alias adds that alias and no other, tells the user
/// so, and does nothing of what the alias is made of.
pub proof fn law_slash_definition(
    before: Session,
    known: Map<Seq<char>, Seq<Statement>>,
    l: Layout,
    name: Seq<char>,
    body: Seq<Statement>,
    answers: Set<HostEvent>,
    after: Session,
    left: Map<Seq<char>, Seq<Statement>>,
)
    requires
        l.wf(),
        are_statements(body, 0),
        nothing_to_replace(name),
        !reserved(lower_text(name)),
        line_handled(
            before,
            known,
            seq!['/'] + script_text(l, seq![alias_statement(name, body)]),
            answers,
            after,
            left,
        ),
    ensures
        left == known.insert(lower_text(name), body),
        same_but_output(before, after),
        after.screen.output == before.screen.output.push(
            "Alias '"@ + lower_text(name) + "' defined."@,
        ),
{
    let statement = alias_statement(name, body);
    let word = statement->name;
    let list = seq![statement];
    let text = script_text(l, list);
    let line = seq!['/'] + text;
    assert(line.skip(1) =~= text);
    lemma_alias_word();
    assert(is_statement(statement));
    reveal_with_fuel(are_statements, 2);
    assert(are_statements(list, 0));
    law_layout(l, list);
    let log = choose|log: Seq<HostEvent>| #[trigger]
        script_asks(list, known, log, left) && all_answered(answers, log, 0) && after
            == before.after_all(log);
    let w = World { aliases: known, log: seq![] };
    law_one_statement(statement, seq![], 0, w, log);
    law_nothing_to_replace(name, seq![]);
    law_alias_definition(word, seq![name], body, seq![], 0, w, log);
    let told = "Alias '"@ + lower_text(name) + "' defined."@;
    let event = HostEvent::Ran { name: "echo"@, args: seq![told] };
    assert(log == Seq::<HostEvent>::empty().push(event));
    law_requests_in_turn(before, seq![], event);
    assert(join(seq![told]) == told);
}

/// The statement that defines an alias.
pub open spec fn alias_statement(name: Seq<char>, body: Seq<Statement>) -> Statement {
    Statement::Command {
        name: seq!['a', 'l', 'i', 'a', 's'],
        args: seq![name],
        block: Some(body),
    }
}

proof fn lemma_alias_word()
    ensures
        command_word(seq!['a', 'l', 'i', 'a', 's']) == "alias"@,
        is_name(seq!['a', 'l', 'i', 'a', 's']),
{
    let word = seq!['a', 'l', 'i', 'a', 's'];
    reveal_strlit("alias");
    law_plain_names(word);
    assert(lower_text(word) =~= word);
    assert("alias"@ =~= word);
}

/// What a script asks for is done in order, each request once.
pub proof fn law_requests_in_turn(s: Session, log: Seq<HostEvent>, event: HostEvent)
    ensures
        s.after_all(log.push(event)) == s.after_all(log).after(event),
        s.after_all(seq![]) == s,
{
    assert(log.push(event).drop_last() =~= log);
}

// ---------------------------------------------------------------------------
// Events
// ---------------------------------------------------------------------------

/// Enter on a line that does not start with `/` sends that line, with a
/// connection, and empties the input; the output stays as it is.
pub proof fn law_enter_sends(
    before: Session,
    known: Map<Seq<char>, Seq<Statement>>,
    control: bool,
    answers: Set<HostEvent>,
    after: Session,
    left: Map<Seq<char>, Seq<Statement>>,
    go_on: bool,
)
    requires
        before.connected,
        before.screen.input.len() > 0,
        before.screen.input[0] != '/',
        event_handled(
            before,
            known,
            UiEvent::Key { key: Key::Enter, control, pressed: true },
            answers,
            after,
            left,
            go_on,
        ),
    ensures
        go_on,
        left == known,
        after.connected,
        after.effects == before.effects.push(Action::Send(before.screen.input)),
        after.screen.input.len() == 0,
        after.screen.cursor == 0,
        after.screen.output == before.screen.output,
{
}

/// Enter submits the whole input, once: what happens is what comes of that
/// line, from a state with an empty input.
pub proof fn law_enter_submits(
    before: Session,
    known: Map<Seq<char>, Seq<Statement>>,
    control: bool,
    answers: Set<HostEvent>,
    after: Session,
    left: Map<Seq<char>, Seq<Statement>>,
    go_on: bool,
)
    requires
        before.screen.input.len() > 0,
        event_handled(
            before,
            known,
            UiEvent::Key { key: Key::Enter, control, pressed: true },
            answers,
            after,
            left,
            go_on,
        ),
    ensures
        go_on,
        ({
            let screen = Screen { input: seq![], cursor: 0, input_scroll: 0, ..before.screen };
            line_handled(
                Session { screen, ..before },
                known,
                before.screen.input,
                answers,
                after,
                left,
            )
        }),
{
}

/// A key that submits nothing asks for nothing on the network and changes no
/// alias; the client goes on unless the key is Escape, or `c` with control.
/// A key that was not pressed does nothing.
pub proof fn law_key_events(
    before: Session,
    known: Map<Seq<char>, Seq<Statement>>,
    key: Key,
    control: bool,
    pressed: bool,
    answers: Set<HostEvent>,
    after: Session,
    left: Map<Seq<char>, Seq<Statement>>,
    go_on: bool,
)
    requires
        key != Key::Enter || before.screen.input.len() == 0 || !pressed,
        event_handled(
            before,
            known,
            UiEvent::Key { key, control, pressed },
            answers,
            after,
            left,
            go_on,
        ),
    ensures
        left == known,
        after.effects == before.effects,
        after.connected == before.connected,
        after.screen.output == before.screen.output,
        go_on <==> !(pressed && (key == Key::Esc || (key == Key::Char('c') && control))),
        !pressed ==> after == before,
        pressed ==> after.screen == key_pressed(before.screen, key, control).0,
{
}

/// A pasted text goes into the input at the cursor without its line breaks,
/// and so submits nothing; a line of the server is shown as the output's last
/// line; the client goes on after both. It stops when there are no more
/// events.
pub proof fn law_other_events(
    before: Session,
    known: Map<Seq<char>, Seq<Statement>>,
    event: UiEvent,
    answers: Set<HostEvent>,
    after: Session,
    left: Map<Seq<char>, Seq<Statement>>,
    go_on: bool,
)
    requires
        !(event is Key),
        before.screen.wf(),
        event_handled(before, known, event, answers, after, left, go_on),
    ensures
        left == known,
        after.effects == before.effects,
        after.connected == before.connected,
        go_on <==> !(event is Ended),
        event is Other || event is Ended ==> after == before,
        event matches UiEvent::Line(raw) ==> same_but_output(before, after)
            && after.screen.output == before.screen.output.push(shown(message_of(raw@))),
        event matches UiEvent::Paste(text) ==> after.screen.output == before.screen.output
            && after.screen.input == before.screen.input.take(before.screen.cursor as int)
            + one_line(text@) + before.screen.input.skip(before.screen.cursor as int)
            && after.screen.cursor == before.screen.cursor + one_line(text@).len(),
{
}

} // verus!
