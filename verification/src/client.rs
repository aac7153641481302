//! The client: what submitted lines and commands do to the screen and to the
//! connection.

use vstd::prelude::*;

use crate::app::{fresh_screen, key_pressed, one_line, AfterKey, App, Key, KeyOutcome, Screen};
use crate::ast::Statement;
use crate::grammar::{script_of, Parsed};
use crate::host::{all_answered, reply_of, CommandHost, HostEvent, NumberOrder};
use crate::interp::{block_run, Interpreter, World};
use crate::irc::{connect_target, format_irc_line, message_of, parse_connect_args, shown, Target};
use crate::link::{address, scheme, scheme_note};
use crate::number::decimal;
use crate::outside::Outside;
use crate::parser::{error_display, expectation, parse_script};
use crate::text::{
    chain, chars_of, copy_strings, join, join_strings, lines_from, same_text, split_lines,
    string_between,
};

verus! {

// ---------------------------------------------------------------------------
// What the client does
// ---------------------------------------------------------------------------

/// Something to be done on the network.
#[derive(Debug)]
pub enum Effect {
    /// Make a connection, which lines are sent to from then on.
    Connect { host: String, port: u16, tls: bool },
    /// Send a line to the connection made last.
    Send(String),
}

/// The mathematical value of an [`Effect`].
pub enum Action {
    Connect(Target),
    Send(Seq<char>),
}

impl DeepView for Effect {
    type V = Action;

    open spec fn deep_view(&self) -> Action {
        match *self {
            Effect::Connect { host, port, tls } => Action::Connect(
                Target { host: host@, port, tls },
            ),
            Effect::Send(line) => Action::Send(line@),
        }
    }
}

/// The mathematical value of a [`Client`].
#[verifier::ext_equal]
pub struct Session {
    pub screen: Screen,
    /// Whether there is a connection that lines can be sent to.
    pub connected: bool,
    /// What is to be done on the network, in order.
    pub effects: Seq<Action>,
}

impl Session {
    /// The session with one more line of output.
    pub open spec fn told(self, line: Seq<char>) -> Session {
        Session { screen: self.screen.output_pushed(line), ..self }
    }

    /// The session with more lines of output.
    pub open spec fn told_all(self, lines: Seq<Seq<char>>) -> Session
        decreases lines.len(),
    {
        if lines.len() == 0 {
            self
        } else {
            self.told_all(lines.drop_last()).told(lines.last())
        }
    }

    /// The session with one more thing to be done on the network.
    pub open spec fn acted(self, action: Action) -> Session {
        Session { effects: self.effects.push(action), ..self }
    }

    /// The session after a line was sent, or could not be.
    pub open spec fn sent(self, line: Seq<char>) -> Session {
        if self.connected {
            self.acted(Action::Send(line))
        } else {
            self.told("Not connected."@)
        }
    }

    /// The session with a connection to `target`.
    pub open spec fn connecting(self, target: Target) -> Session {
        Session {
            connected: true,
            ..self.told(
                "* Connecting to "@ + (target.host.push(':') + decimal(target.port as nat))
                    + scheme_note(target.tls) + "..."@,
            ).acted(Action::Connect(target))
        }
    }

    /// The session after a command that is no alias and no builtin of
    /// scripts.
    pub open spec fn commanded(self, name: Seq<char>, args: Seq<Seq<char>>) -> Session {
        if name == "echo"@ {
            self.told(join(args))
        } else if name == "connect"@ {
            match connect_target(join(args)) {
                Some(target) => self.connecting(target),
                None => self.told("Usage: connect [--tls] <host[:port]>"@),
            }
        } else if name == "msg"@ {
            if args.len() < 2 {
                self.told("Usage: msg <target> <text...>"@)
            } else {
                self.sent("PRIVMSG "@ + args[0] + " :"@ + join(args.skip(1)))
            }
        } else if name == "raw"@ {
            if args.len() == 0 {
                self.told("Usage: raw <irc line...>"@)
            } else {
                self.sent(join(args))
            }
        } else {
            self.told("Unknown command: "@ + name)
        }
    }

    /// The session after one thing that a script asked for.
    pub open spec fn after(self, event: HostEvent) -> Session {
        match event {
            HostEvent::Ran { name, args } => self.commanded(name, args),
            HostEvent::Reported { message } => self.told("! "@ + message),
            HostEvent::Read { .. } => self,
            HostEvent::Compared { .. } => self,
        }
    }

    /// The session after all that a script asked for.
    pub open spec fn after_all(self, log: Seq<HostEvent>) -> Session
        decreases log.len(),
    {
        if log.len() == 0 {
            self
        } else {
            self.after_all(log.drop_last()).after(log.last())
        }
    }

    /// The session after a script that is not well-formed.
    pub open spec fn misread(self, message: Seq<char>) -> Session {
        self.told("! parse error:"@).told_all(lines_from(message, 0))
    }
}

/// Whether a script that is run with the aliases `known` can ask for `log`
/// and leave the aliases `left`.
pub open spec fn script_asks(
    list: Seq<Statement>,
    known: Map<Seq<char>, Seq<Statement>>,
    log: Seq<HostEvent>,
    left: Map<Seq<char>, Seq<Statement>>,
) -> bool {
    block_run(list, seq![], 0, World { aliases: known, log: seq![] }, log) == (World {
        aliases: left,
        log,
    })
}

/// Whether `after` and the aliases `left` are what can come of submitting
/// `line`, where `answers` are the answers of the world outside. A line that
/// starts with `/` is a script; anything else goes to the server, or is just
/// shown if there is none.
pub open spec fn line_handled(
    before: Session,
    known: Map<Seq<char>, Seq<Statement>>,
    line: Seq<char>,
    answers: Set<HostEvent>,
    after: Session,
    left: Map<Seq<char>, Seq<Statement>>,
) -> bool {
    if line.len() > 0 && line[0] == '/' {
        let text = line.skip(1);
        match script_of(text) {
            Parsed::Done(list, _) => exists|log: Seq<HostEvent>| #[trigger]
                script_asks(list, known, log, left) && all_answered(answers, log, 0) && after
                == before.after_all(log),
            Parsed::Fail(at, expected) => left == known && after == before.misread(
                error_display(text, text.take(at), expectation(expected)),
            ),
        }
    } else {
        left == known && after == (if before.connected {
            before.acted(Action::Send(line))
        } else {
            before.told("> "@ + line)
        })
    }
}

/// Something that happened to the user interface.
#[derive(Debug)]
pub enum UiEvent {
    /// A key was pressed, or something else was done to it.
    Key { key: Key, control: bool, pressed: bool },
    /// A text was pasted.
    Paste(String),
    /// A connection has a line to show.
    Line(String),
    /// Nothing that matters. A resize does not: the next draw measures the
    /// areas again.
    Other,
    /// There will be no more events.
    Ended,
}

/// Whether `after`, the aliases `left` and whether to go on are what can come
/// of an event, where `answers` are the answers of the world outside.
pub open spec fn event_handled(
    before: Session,
    known: Map<Seq<char>, Seq<Statement>>,
    event: UiEvent,
    answers: Set<HostEvent>,
    after: Session,
    left: Map<Seq<char>, Seq<Statement>>,
    go_on: bool,
) -> bool {
    match event {
        UiEvent::Key { key, control, pressed } => {
            let (screen, outcome) = key_pressed(before.screen, key, control);
            let typed = Session { screen, ..before };
            if !pressed {
                after == before && left == known && go_on
            } else {
                match outcome {
                    AfterKey::Continue => after == typed && left == known && go_on,
                    AfterKey::Quit => after == typed && left == known && !go_on,
                    AfterKey::Submit(line) => line_handled(
                        typed,
                        known,
                        line,
                        answers,
                        after,
                        left,
                    )
                        && go_on,
                }
            }
        },
        UiEvent::Paste(text) => {
            &&& after == (Session { screen: before.screen.inserted(one_line(text@)), ..before })
            &&& left == known
            &&& go_on
        },
        UiEvent::Line(raw) => {
            &&& after == before.told(shown(message_of(raw@)))
            &&& left == known
            &&& go_on
        },
        UiEvent::Other => after == before && left == known && go_on,
        UiEvent::Ended => after == before && left == known && !go_on,
    }
}

// ---------------------------------------------------------------------------
// Recording what a script asks for
// ---------------------------------------------------------------------------

/// One thing that a script asked for, with the answer.
#[derive(Debug)]
pub enum Request {
    Run { name: String, args: Vec<String> },
    Read { path: String, reply: Result<String, String> },
    Compare { left: String, right: String, order: Option<NumberOrder> },
    Report { message: String },
}

impl DeepView for Request {
    type V = HostEvent;

    open spec fn deep_view(&self) -> HostEvent {
        match *self {
            Request::Run { name, args } => HostEvent::Ran { name: name@, args: args.deep_view() },
            Request::Read { path, reply } => HostEvent::Read { path: path@, reply: reply_of(reply) },
            Request::Compare { left, right, order } => HostEvent::Compared {
                left: left@,
                right: right@,
                order,
            },
            Request::Report { message } => HostEvent::Reported { message: message@ },
        }
    }
}

/// A host that asks the world outside, and writes down what it is asked for.
pub struct Recorder<
    'a,
    R: Fn(&str) -> Result<String, String>,
    O: Fn(&str, &str) -> Option<NumberOrder>,
> {
    outside: &'a Outside<R, O>,
    requests: Vec<Request>,
}

impl<
    'a,
    R: Fn(&str) -> Result<String, String>,
    O: Fn(&str, &str) -> Option<NumberOrder>,
> Recorder<'a, R, O> {
    /// A host that was asked for nothing yet.
    pub fn new(outside: &'a Outside<R, O>) -> (r: Self)
        ensures
            r.log() == Seq::<HostEvent>::empty(),
            r.answers() == outside.answers(),
    {
        let r = Recorder { outside, requests: Vec::new() };
        assert(r.log() =~= Seq::<HostEvent>::empty());
        r
    }

    /// What was asked for, in order.
    pub fn into_requests(self) -> (r: Vec<Request>)
        ensures
            r.deep_view() == self.log(),
    {
        self.requests
    }

    fn record(&mut self, request: Request)
        ensures
            final(self).log() == old(self).log().push(request.deep_view()),
            final(self).answers() == old(self).answers(),
    {
        self.requests.push(request);
        assert(self.log() =~= old(self).log().push(request.deep_view()));
    }
}

/// A copy of an answer to a request for a file.
fn copy_reply(reply: &Result<String, String>) -> (r: Result<String, String>)
    ensures
        reply_of(r) == reply_of(*reply),
{
    match reply {
        Ok(text) => Ok(text.clone()),
        Err(reason) => Err(reason.clone()),
    }
}

impl<
    'a,
    R: Fn(&str) -> Result<String, String>,
    O: Fn(&str, &str) -> Option<NumberOrder>,
> CommandHost for Recorder<'a, R, O> {
    closed spec fn log(&self) -> Seq<HostEvent> {
        self.requests.deep_view()
    }

    closed spec fn answers(&self) -> Set<HostEvent> {
        self.outside.answers()
    }

    fn run_command(&mut self, name: &str, args: &[String]) {
        self.record(Request::Run { name: name.to_string(), args: copy_strings(args) });
    }

    fn read_script_file(&mut self, path: &str) -> (r: Result<String, String>) {
        let reply = self.outside.read_script_file(path);
        self.record(Request::Read { path: path.to_string(), reply: copy_reply(&reply) });
        reply
    }

    fn compare_numbers(&mut self, left: &str, right: &str) -> (r: Option<NumberOrder>) {
        let order = self.outside.compare_numbers(left, right);
        self.record(
            Request::Compare { left: left.to_string(), right: right.to_string(), order },
        );
        order
    }

    fn report_error(&mut self, message: &str) {
        self.record(Request::Report { message: message.to_string() });
    }
}

// ---------------------------------------------------------------------------
// The client
// ---------------------------------------------------------------------------

/// The screen, whether there is a connection, and what is to be done on the
/// network.
pub struct Client {
    pub app: App,
    pub connected: bool,
    pub effects: Vec<Effect>,
}

impl View for Client {
    type V = Session;

    open spec fn view(&self) -> Session {
        Session {
            screen: self.app@,
            connected: self.connected,
            effects: self.effects.deep_view(),
        }
    }
}

impl Client {
    /// Whether the parts of the state agree with each other.
    pub open spec fn wf(&self) -> bool {
        self.app.wf()
    }

    /// A client without a connection.
    pub fn new() -> (r: Self)
        ensures
            r.wf(),
            r@ == (Session {
                screen: fresh_screen(),
                connected: false,
                effects: seq![],
            }),
    {
        let r = Client { app: App::new(), connected: false, effects: Vec::new() };
        assert(r.effects.deep_view() =~= seq![]);
        r
    }

    /// What is to be done on the network, in order. It is to be done once.
    pub fn take_effects(&mut self) -> (r: Vec<Effect>)
        requires
            old(self).wf(),
        ensures
            final(self).wf(),
            r.deep_view() == old(self)@.effects,
            final(self)@ == (Session { effects: seq![], ..old(self)@ }),
    {
        let mut taken: Vec<Effect> = Vec::new();
        taken.append(&mut self.effects);
        assert(taken.deep_view() =~= old(self)@.effects);
        assert(self.effects.deep_view() =~= seq![]);
        taken
    }

    fn tell(&mut self, line: String)
        requires
            old(self).wf(),
        ensures
            final(self).wf(),
            final(self)@ == old(self)@.told(line@),
    {
        self.app.push_output(line);
    }

    fn act(&mut self, effect: Effect)
        requires
            old(self).wf(),
        ensures
            final(self).wf(),
            final(self)@ == old(self)@.acted(effect.deep_view()),
    {
        self.effects.push(effect);
        assert(self.effects.deep_view() =~= old(self).effects.deep_view().push(effect.deep_view()));
    }

    /// Sends a raw line to the active connection, or reports that there
    /// isn't one.
    pub fn send_line(&mut self, line: String)
        requires
            old(self).wf(),
        ensures
            final(self).wf(),
            final(self)@ == old(self)@.sent(line@),
    {
        if self.connected {
            self.act(Effect::Send(line));
        } else {
            self.tell("Not connected.".to_string());
        }
    }

    /// Runs a command that is no alias and no builtin of scripts.
    pub fn run_command(&mut self, name: &str, args: &[String])
        requires
            old(self).wf(),
        ensures
            final(self).wf(),
            final(self)@ == old(self)@.commanded(name@, args.deep_view()),
    {
        let ghost given = args.deep_view();
        if same_text(name, "echo") {
            self.tell(join_strings(args));
            return;
        }
        if same_text(name, "connect") {
            let text = join_strings(args);
            match parse_connect_args(text.as_str()) {
                Some((host, port, tls)) => {
                    let addr = address(host.as_str(), port);
                    let text = chain("* Connecting to ", addr.as_str());
                    let text = chain(text.as_str(), scheme(tls));
                    self.tell(chain(text.as_str(), "..."));
                    self.connected = true;
                    self.act(Effect::Connect { host, port, tls });
                },
                None => self.tell("Usage: connect [--tls] <host[:port]>".to_string()),
            }
            return;
        }
        if same_text(name, "msg") {
            if args.len() < 2 {
                self.tell("Usage: msg <target> <text...>".to_string());
                return;
            }
            let mut rest: Vec<String> = copy_strings(args);
            let target = rest.remove(0);
            let words = rest.as_slice();
            assert(words.deep_view() =~= given.skip(1));
            let text = join_strings(words);
            let start = chain("PRIVMSG ", target.as_str());
            let start = chain(start.as_str(), " :");
            self.send_line(chain(start.as_str(), text.as_str()));
            return;
        }
        if same_text(name, "raw") {
            if args.len() == 0 {
                self.tell("Usage: raw <irc line...>".to_string());
                return;
            }
            self.send_line(join_strings(args));
            return;
        }
        self.tell(chain("Unknown command: ", name));
    }

    /// Reports a script-level problem.
    pub fn report_error(&mut self, message: &str)
        requires
            old(self).wf(),
        ensures
            final(self).wf(),
            final(self)@ == old(self)@.told("! "@ + message@),
    {
        self.tell(chain("! ", message));
    }

    /// Does all that a script asked for.
    pub fn perform(&mut self, requests: &Vec<Request>)
        requires
            old(self).wf(),
        ensures
            final(self).wf(),
            final(self)@ == old(self)@.after_all(requests.deep_view()),
    {
        let ghost log = requests.deep_view();
        let mut i: usize = 0;
        assert(log.take(0) =~= seq![]);
        while i < requests.len()
            invariant
                i <= requests@.len(),
                log == requests.deep_view(),
                self.wf(),
                self@ == old(self)@.after_all(log.take(i as int)),
            decreases requests@.len() - i,
        {
            proof {
                assert(log.take(i + 1).drop_last() =~= log.take(i as int));
                assert(log.take(i + 1).last() == requests@[i as int].deep_view());
            }
            match &requests[i] {
                Request::Run { name, args } => {
                    let given = args.as_slice();
                    assert(given.deep_view() =~= args.deep_view());
                    self.run_command(name.as_str(), given);
                },
                Request::Report { message } => self.report_error(message.as_str()),
                Request::Read { .. } => {},
                Request::Compare { .. } => {},
            }
            i = i + 1;
        }
        assert(log.take(i as int) =~= log);
    }

    /// Shows why a script could not be read. The message has several lines
    /// (source excerpt + a caret pointing at the problem); that formatting is
    /// kept intact.
    pub fn report_parse_error(&mut self, message: &str)
        requires
            old(self).wf(),
        ensures
            final(self).wf(),
            final(self)@ == old(self)@.misread(message@),
    {
        self.tell("! parse error:".to_string());
        let ghost start = self@;
        let lines = split_lines(message);
        let ghost all = lines.deep_view();
        let mut i: usize = 0;
        assert(all.take(0) =~= seq![]);
        while i < lines.len()
            invariant
                i <= lines@.len(),
                all == lines.deep_view(),
                self.wf(),
                self@ == start.told_all(all.take(i as int)),
            decreases lines@.len() - i,
        {
            proof {
                assert(all.take(i + 1).drop_last() =~= all.take(i as int));
                assert(all.take(i + 1).last() == lines@[i as int]@);
            }
            self.tell(lines[i].clone());
            i = i + 1;
        }
        assert(all.take(i as int) =~= all);
    }

    /// Shows a line that a server sent.
    pub fn receive(&mut self, raw: &str)
        requires
            old(self).wf(),
        ensures
            final(self).wf(),
            final(self)@ == old(self)@.told(shown(message_of(raw@))),
    {
        self.tell(format_irc_line(raw));
    }

    /// Handles one submitted input line. Anything starting with `/` is parsed
    /// and run as a script statement (`connect`, `alias`, `if`, `load`, a
    /// user-defined alias, ...); anything else is sent raw to the active
    /// connection if there is one, or just echoed locally as a harmless
    /// fallback -- ordinary chat text, not a command.
    pub fn handle_submitted_line<
        R: Fn(&str) -> Result<String, String>,
        O: Fn(&str, &str) -> Option<NumberOrder>,
    >(
        &mut self,
        msg: String,
        interpreter: &mut Interpreter,
        outside: &Outside<R, O>,
    )
        requires
            old(self).wf(),
        ensures
            final(self).wf(),
            line_handled(
                old(self)@,
                old(interpreter)@,
                msg@,
                outside.answers(),
                final(self)@,
                final(interpreter)@,
            ),
    {
        let v = chars_of(msg.as_str());
        if v.len() > 0 && v[0] == '/' {
            let rest = string_between(v.as_slice(), 1, v.len());
            assert(rest@ =~= msg@.skip(1));
            match parse_script(rest.as_str()) {
                Ok(script) => {
                    let mut recorder = Recorder::new(outside);
                    let none: Vec<String> = Vec::new();
                    let no_args = none.as_slice();
                    assert(no_args.deep_view() =~= Seq::<Seq<char>>::empty());
                    interpreter.exec_with(&script, no_args, &mut recorder);
                    let ghost log = recorder.log();
                    proof {
                        assert(log.is_prefix_of(log));
                        assert(script_asks(script@, old(interpreter)@, log, interpreter@));
                    }
                    let requests = recorder.into_requests();
                    self.perform(&requests);
                },
                Err(message) => self.report_parse_error(message.as_str()),
            }
            return;
        }
        if self.connected {
            self.act(Effect::Send(msg));
        } else {
            self.tell(chain("> ", msg.as_str()));
        }
    }

    /// Handles one event. Tells whether to go on.
    pub fn handle_event<
        R: Fn(&str) -> Result<String, String>,
        O: Fn(&str, &str) -> Option<NumberOrder>,
    >(
        &mut self,
        event: UiEvent,
        interpreter: &mut Interpreter,
        outside: &Outside<R, O>,
    ) -> (go_on: bool)
        requires
            old(self).wf(),
        ensures
            final(self).wf(),
            event_handled(
                old(self)@,
                old(interpreter)@,
                event,
                outside.answers(),
                final(self)@,
                final(interpreter)@,
                go_on,
            ),
    {
        match event {
            UiEvent::Key { key, control, pressed } => {
                if !pressed {
                    return true;
                }
                match self.app.press_key(key, control) {
                    KeyOutcome::Continue => true,
                    KeyOutcome::Quit => false,
                    KeyOutcome::Submit(line) => {
                        self.handle_submitted_line(line, interpreter, outside);
                        true
                    },
                }
            },
            UiEvent::Paste(text) => {
                self.app.insert_str(text.as_str());
                true
            },
            UiEvent::Line(raw) => {
                self.receive(raw.as_str());
                true
            },
            UiEvent::Other => true,
            UiEvent::Ended => false,
        }
    }
}

} // verus!
