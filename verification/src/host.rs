//! What a script asks of the world around it.

use vstd::prelude::*;

verus! {

/// How two numbers compare. Numbers that have no order, as those that are
/// not a number, are `Unordered`.
#[derive(Debug, Clone, Copy, PartialEq, Eq, Structural)]
pub enum NumberOrder {
    Less,
    Equal,
    Greater,
    Unordered,
}

/// One thing that was asked of a host, with the host's answer.
pub enum HostEvent {
    Ran { name: Seq<char>, args: Seq<Seq<char>> },
    Read { path: Seq<char>, reply: Result<Seq<char>, Seq<char>> },
    Compared { left: Seq<char>, right: Seq<char>, order: Option<NumberOrder> },
    Reported { message: Seq<char> },
}

/// The value of a host's answer to a request for a file.
pub open spec fn reply_of(r: Result<String, String>) -> Result<Seq<char>, Seq<char>> {
    match r {
        Ok(text) => Ok(text@),
        Err(reason) => Err(reason@),
    }
}

/// Side effects the interpreter can't perform itself -- implemented by
/// whatever owns the actual application state.
pub trait CommandHost {
    /// What has been asked of the host so far.
    spec fn log(&self) -> Seq<HostEvent>;

    /// The questions about files and numbers, each with an answer that the
    /// world behind the host gives to it.
    spec fn answers(&self) -> Set<HostEvent>;

    /// Runs any command that isn't one of the interpreter's own control-flow
    /// builtins (`alias`, `if`, `load`) and isn't a user-defined alias.
    fn run_command(&mut self, name: &str, args: &[String])
        ensures
            final(self).log() == old(self).log().push(
                HostEvent::Ran { name: name@, args: args.deep_view() },
            ),
            final(self).answers() == old(self).answers(),
    ;

    /// Reads a script file's contents for `/load`.
    fn read_script_file(&mut self, path: &str) -> (r: Result<String, String>)
        ensures
            final(self).log() == old(self).log().push(
                HostEvent::Read { path: path@, reply: reply_of(r) },
            ),
            final(self).answers() == old(self).answers(),
            old(self).answers().contains(HostEvent::Read { path: path@, reply: reply_of(r) }),
    ;

    /// How `left` and `right` compare as floating-point numbers. `None` where
    /// one of them is not written as a number.
    fn compare_numbers(&mut self, left: &str, right: &str) -> (r: Option<NumberOrder>)
        ensures
            final(self).log() == old(self).log().push(
                HostEvent::Compared { left: left@, right: right@, order: r },
            ),
            final(self).answers() == old(self).answers(),
            old(self).answers().contains(
                HostEvent::Compared { left: left@, right: right@, order: r },
            ),
    ;

    /// Reports a script-level problem: bad `if` syntax, a missing alias block,
    /// an unreadable file, hitting the recursion limit, etc.
    fn report_error(&mut self, message: &str)
        ensures
            final(self).log() == old(self).log().push(HostEvent::Reported { message: message@ }),
            final(self).answers() == old(self).answers(),
    ;
}

/// A log is a beginning of every log that grew from it.
pub proof fn lemma_pushed(log: Seq<HostEvent>, longer: Seq<HostEvent>)
    requires
        exists|e: HostEvent| longer == log.push(e),
    ensures
        log.is_prefix_of(longer),
{
    assert(longer.subrange(0, log.len() as int) =~= log);
}

/// A transcript holds what its beginning holds.
pub proof fn lemma_prefix_index(log: Seq<HostEvent>, t: Seq<HostEvent>, i: int)
    requires
        log.is_prefix_of(t),
        0 <= i < log.len(),
    ensures
        t[i] == log[i],
{
    assert(t.subrange(0, log.len() as int)[i] == t[i]);
}

/// What begins with a log begins with every beginning of it.
pub proof fn lemma_prefix_all(a: Seq<HostEvent>, b: Seq<HostEvent>, c: Seq<HostEvent>)
    requires
        a.is_prefix_of(b),
        b.is_prefix_of(c),
    ensures
        a.is_prefix_of(c),
        forall|t: Seq<HostEvent>| #[trigger] c.is_prefix_of(t) ==> b.is_prefix_of(t),
{
    assert(c.subrange(0, a.len() as int) =~= b.subrange(0, a.len() as int));
    assert forall|t: Seq<HostEvent>| #[trigger] c.is_prefix_of(t) implies b.is_prefix_of(t) by {
        assert(t.subrange(0, b.len() as int) =~= c.subrange(0, b.len() as int));
    }
}

/// Whether every question of the log from place `from` on has an answer that
/// the world gives to it.
pub open spec fn all_answered(answers: Set<HostEvent>, log: Seq<HostEvent>, from: nat) -> bool {
    forall|i: int|
        from <= i < log.len() && (log[i] is Read || log[i] is Compared) ==> answers.contains(
            #[trigger] log[i],
        )
}

/// Two parts of a log with such answers make a log with such answers.
pub proof fn lemma_answered_all(
    answers: Set<HostEvent>,
    a: Seq<HostEvent>,
    b: Seq<HostEvent>,
    c: Seq<HostEvent>,
)
    requires
        a.is_prefix_of(b),
        b.is_prefix_of(c),
        all_answered(answers, b, a.len()),
        all_answered(answers, c, b.len()),
    ensures
        all_answered(answers, c, a.len()),
{
    assert forall|i: int|
        a.len() <= i < c.len() && (c[i] is Read || c[i] is Compared) implies answers.contains(
        #[trigger] c[i],
    ) by {
        if i < b.len() {
            lemma_prefix_index(b, c, i);
            assert(answers.contains(b[i]));
        }
    }
}

/// The answer that the transcript `t` gives to the file request at place `i`.
pub open spec fn read_reply(t: Seq<HostEvent>, i: int) -> Result<Seq<char>, Seq<char>> {
    match t[i] {
        HostEvent::Read { path, reply } => reply,
        _ => Err(seq![]),
    }
}

/// The answer that the transcript `t` gives to the comparison at place `i`.
pub open spec fn number_reply(t: Seq<HostEvent>, i: int) -> Option<NumberOrder> {
    match t[i] {
        HostEvent::Compared { left, right, order } => order,
        _ => None,
    }
}

} // verus!
