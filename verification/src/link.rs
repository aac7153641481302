//! What is said over a connection to a server, and what is shown of it.

use vstd::prelude::*;

use crate::irc::{message_of, parse_irc_line};
use crate::number::{decimal, push_decimal};
use crate::text::{chain, lower_text, lowercase, same_text};

verus! {

/// How far a connection has come.
#[derive(Debug, Clone, Copy, PartialEq, Eq, Structural)]
pub enum Phase {
    /// Waiting for the TCP connection.
    Dialing,
    /// Waiting for the TLS handshake.
    Securing,
    /// Lines come and go.
    Open,
    /// Over.
    Closed,
}

/// Something that happened on a connection.
#[derive(Debug)]
pub enum LinkEvent {
    /// The TCP connection was made, or failed for the given reason.
    Dialed(Result<(), String>),
    /// The TLS handshake was done, or failed for the given reason.
    Secured(Result<(), String>),
    /// The server sent a line.
    Received(String),
    /// The server closed the connection.
    Ended,
    /// Reading failed for the given reason.
    Broken(String),
    /// A line is to be sent to the server.
    Outgoing(String),
    /// What is shown reaches nobody any more.
    Unheard,
}

/// Something to be done on a connection.
#[derive(Debug)]
pub enum LinkAction {
    /// Start the TLS handshake.
    Handshake,
    /// Show a line to the user.
    Show(String),
    /// Write a text to the server.
    Write(String),
}

/// The mathematical value of a [`LinkEvent`].
pub enum Happening {
    Dialed(Result<(), Seq<char>>),
    Secured(Result<(), Seq<char>>),
    Received(Seq<char>),
    Ended,
    Broken(Seq<char>),
    Outgoing(Seq<char>),
    Unheard,
}

/// The mathematical value of a [`LinkAction`].
pub enum Doing {
    Handshake,
    Show(Seq<char>),
    Write(Seq<char>),
}

impl View for LinkEvent {
    type V = Happening;

    open spec fn view(&self) -> Happening {
        match *self {
            LinkEvent::Dialed(Ok(())) => Happening::Dialed(Ok(())),
            LinkEvent::Dialed(Err(reason)) => Happening::Dialed(Err(reason@)),
            LinkEvent::Secured(Ok(())) => Happening::Secured(Ok(())),
            LinkEvent::Secured(Err(reason)) => Happening::Secured(Err(reason@)),
            LinkEvent::Received(line) => Happening::Received(line@),
            LinkEvent::Ended => Happening::Ended,
            LinkEvent::Broken(reason) => Happening::Broken(reason@),
            LinkEvent::Outgoing(line) => Happening::Outgoing(line@),
            LinkEvent::Unheard => Happening::Unheard,
        }
    }
}

impl View for LinkAction {
    type V = Doing;

    open spec fn view(&self) -> Doing {
        match *self {
            LinkAction::Handshake => Doing::Handshake,
            LinkAction::Show(line) => Doing::Show(line@),
            LinkAction::Write(text) => Doing::Write(text@),
        }
    }
}

impl DeepView for LinkAction {
    type V = Doing;

    open spec fn deep_view(&self) -> Doing {
        self@
    }
}

// ---------------------------------------------------------------------------
// What is said
// ---------------------------------------------------------------------------

/// A connection: where it goes to, and how far it has come.
pub struct Link {
    pub host: Seq<char>,
    pub port: u16,
    pub tls: bool,
    pub phase: Phase,
}

impl Link {
    /// `host:port`.
    pub open spec fn address(self) -> Seq<char> {
        self.host.push(':') + decimal(self.port as nat)
    }

    /// The connection at another phase.
    pub open spec fn at(self, phase: Phase) -> Link {
        Link { phase, ..self }
    }

    /// What is done as soon as the connection is open: the user is told, and
    /// the server is given the registration it waits for.
    pub open spec fn greeting(self) -> Seq<Doing> {
        seq![
            Doing::Show("* Connected to "@ + self.address() + scheme_note(self.tls)),
            Doing::Write("NICK tui_user\r\n"@),
            Doing::Write("USER tui_user 0 * :Rust TUI IRC client\r\n"@),
        ]
    }

    /// The connection after something happened, and what is to be done then.
    /// What cannot happen at the phase of the connection changes nothing.
    pub open spec fn after(self, event: Happening) -> (Link, Seq<Doing>) {
        match (self.phase, event) {
            (Phase::Dialing, Happening::Dialed(Err(reason))) => (
                self.at(Phase::Closed),
                seq![
                    Doing::Show("* Connection to "@ + self.address() + " failed: "@ + reason),
                ],
            ),
            (Phase::Dialing, Happening::Dialed(Ok(_))) => if self.tls {
                (self.at(Phase::Securing), seq![Doing::Handshake])
            } else {
                (self.at(Phase::Open), self.greeting())
            },
            (Phase::Securing, Happening::Secured(Err(reason))) => (
                self.at(Phase::Closed),
                seq![
                    Doing::Show("* TLS handshake with "@ + self.address() + " failed: "@ + reason),
                ],
            ),
            (Phase::Securing, Happening::Secured(Ok(_))) => (
                self.at(Phase::Open),
                self.greeting(),
            ),
            (Phase::Open, Happening::Received(line)) => (self, answered(line)),
            (Phase::Open, Happening::Ended) => (
                self.at(Phase::Closed),
                seq![Doing::Show("* Disconnected from "@ + self.address())],
            ),
            (Phase::Open, Happening::Broken(reason)) => (
                self.at(Phase::Closed),
                seq![Doing::Show("* Read error from "@ + self.address() + ": "@ + reason)],
            ),
            (Phase::Open, Happening::Outgoing(line)) => (
                self,
                seq![Doing::Write(line), Doing::Write("\r\n"@)],
            ),
            (Phase::Open, Happening::Unheard) => (self.at(Phase::Closed), seq![]),
            _ => (self, seq![]),
        }
    }
}

/// What the user is told of the kind of a connection.
pub open spec fn scheme_note(tls: bool) -> Seq<char> {
    if tls {
        " (TLS)"@
    } else {
        " (plaintext)"@
    }
}

/// The last parameter of a message; nothing if it has none.
pub open spec fn last_param(params: Seq<Seq<char>>) -> Seq<char> {
    if params.len() > 0 {
        params.last()
    } else {
        seq![]
    }
}

/// Whether the line is a keepalive request.
pub open spec fn is_ping(line: Seq<char>) -> bool {
    lower_text(message_of(line).command) == "ping"@
}

/// What is done with a line of the server: a keepalive request is answered
/// with its token, and every line is shown.
pub open spec fn answered(line: Seq<char>) -> Seq<Doing> {
    if is_ping(line) {
        seq![
            Doing::Write("PONG :"@ + last_param(message_of(line).params) + "\r\n"@),
            Doing::Show(line),
        ]
    } else {
        seq![Doing::Show(line)]
    }
}

// ---------------------------------------------------------------------------
// Connections
// ---------------------------------------------------------------------------

/// One connection to a server, without the transport: it is told what
/// happens, and says what is to be done.
#[derive(Debug)]
pub struct Connection {
    host: String,
    port: u16,
    tls: bool,
    phase: Phase,
}

impl View for Connection {
    type V = Link;

    closed spec fn view(&self) -> Link {
        Link { host: self.host@, port: self.port, tls: self.tls, phase: self.phase }
    }
}

/// `host:port`.
pub fn address(host: &str, port: u16) -> (r: String)
    ensures
        r@ == host@.push(':') + decimal(port as nat),
{
    let mut out = String::new();
    out.append(host);
    out.push(':');
    push_decimal(&mut out, port);
    assert(out@ =~= host@.push(':') + decimal(port as nat));
    out
}

/// What the user is told of the kind of a connection.
pub fn scheme(tls: bool) -> (r: &'static str)
    ensures
        r@ == scheme_note(tls),
{
    if tls {
        " (TLS)"
    } else {
        " (plaintext)"
    }
}

impl Connection {
    /// A connection that is about to be made.
    pub fn new(host: String, port: u16, tls: bool) -> (r: Self)
        ensures
            r@ == (Link { host: host@, port, tls, phase: Phase::Dialing }),
    {
        Connection { host, port, tls, phase: Phase::Dialing }
    }

    /// `host:port`.
    pub fn address(&self) -> (r: String)
        ensures
            r@ == self@.address(),
    {
        address(self.host.as_str(), self.port)
    }

    /// The host.
    pub fn host(&self) -> (r: &str)
        ensures
            r@ == self@.host,
    {
        self.host.as_str()
    }

    /// How far the connection has come.
    pub fn phase(&self) -> (r: Phase)
        ensures
            r == self@.phase,
    {
        self.phase
    }

    fn greeting(&self) -> (r: Vec<LinkAction>)
        ensures
            r.deep_view() == self@.greeting(),
    {
        let mut out: Vec<LinkAction> = Vec::new();
        let addr = self.address();
        let start = chain("* Connected to ", addr.as_str());
        out.push(LinkAction::Show(chain(start.as_str(), scheme(self.tls))));
        out.push(LinkAction::Write("NICK tui_user\r\n".to_string()));
        out.push(LinkAction::Write("USER tui_user 0 * :Rust TUI IRC client\r\n".to_string()));
        assert(out.deep_view() =~= self@.greeting());
        out
    }

    /// What is to be done after something happened.
    pub fn handle(&mut self, event: LinkEvent) -> (r: Vec<LinkAction>)
        ensures
            (final(self)@, r.deep_view()) == old(self)@.after(event@),
    {
        let mut out: Vec<LinkAction> = Vec::new();
        let ghost link = self@;
        match self.phase {
            Phase::Dialing => {
                if let LinkEvent::Dialed(result) = event {
                    match result {
                        Err(reason) => {
                            let addr = self.address();
                            let start = chain("* Connection to ", addr.as_str());
                            let start = chain(start.as_str(), " failed: ");
                            out.push(LinkAction::Show(chain(start.as_str(), reason.as_str())));
                            self.phase = Phase::Closed;
                        },
                        Ok(_) => {
                            if self.tls {
                                out.push(LinkAction::Handshake);
                                self.phase = Phase::Securing;
                            } else {
                                out = self.greeting();
                                self.phase = Phase::Open;
                            }
                        },
                    }
                }
            },
            Phase::Securing => {
                if let LinkEvent::Secured(result) = event {
                    match result {
                        Err(reason) => {
                            let addr = self.address();
                            let start = chain("* TLS handshake with ", addr.as_str());
                            let start = chain(start.as_str(), " failed: ");
                            out.push(LinkAction::Show(chain(start.as_str(), reason.as_str())));
                            self.phase = Phase::Closed;
                        },
                        Ok(_) => {
                            out = self.greeting();
                            self.phase = Phase::Open;
                        },
                    }
                }
            },
            Phase::Open => match event {
                LinkEvent::Received(line) => {
                    out = answer(line);
                },
                LinkEvent::Ended => {
                    let addr = self.address();
                    out.push(LinkAction::Show(chain("* Disconnected from ", addr.as_str())));
                    self.phase = Phase::Closed;
                },
                LinkEvent::Broken(reason) => {
                    let addr = self.address();
                    let start = chain("* Read error from ", addr.as_str());
                    let start = chain(start.as_str(), ": ");
                    out.push(LinkAction::Show(chain(start.as_str(), reason.as_str())));
                    self.phase = Phase::Closed;
                },
                LinkEvent::Outgoing(line) => {
                    out.push(LinkAction::Write(line));
                    out.push(LinkAction::Write("\r\n".to_string()));
                },
                LinkEvent::Unheard => {
                    self.phase = Phase::Closed;
                },
                _ => {},
            },
            Phase::Closed => {},
        }
        assert(out.deep_view() =~= link.after(event@).1);
        out
    }
}

/// What is done with a line of the server.
fn answer(line: String) -> (r: Vec<LinkAction>)
    ensures
        r.deep_view() == answered(line@),
{
    let mut out: Vec<LinkAction> = Vec::new();
    let parsed = parse_irc_line(line.as_str());
    if same_text(lowercase(parsed.command.as_str()).as_str(), "ping") {
        let mut token = String::new();
        if parsed.params.len() > 0 {
            token = parsed.params[parsed.params.len() - 1].clone();
        }
        assert(token@ =~= last_param(message_of(line@).params));
        let reply = chain("PONG :", token.as_str());
        out.push(LinkAction::Write(chain(reply.as_str(), "\r\n")));
    }
    out.push(LinkAction::Show(line));
    assert(out.deep_view() =~= answered(line@));
    out
}

} // verus!
