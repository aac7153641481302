//! Running scripts: control flow, aliases and `load`.

use vstd::hash_map::StringHashMap;
use vstd::prelude::*;

use crate::ast::{block_of, copy_block, Statement, Stmt};
use crate::eval::{eval_expr, evaluated};
use crate::grammar::{command_word, script_of, Parsed};
use crate::host::{
    all_answered, lemma_answered_all, lemma_prefix_all, lemma_prefix_index, lemma_pushed,
    read_reply, reply_of, CommandHost, HostEvent,
};
use crate::parser::{error_display, expectation, parse_script, Script};
use crate::subst::{substitute, substituted};
use crate::text::{
    chain, chars_of, lower_text, lowercase, same_text, skip_run, string_between, Class,
};

verus! {

/// Guards against unbounded recursion from a self-referential (or mutually
/// recursive) alias.
pub const MAX_DEPTH: usize = 32;

// ---------------------------------------------------------------------------
// What a script does
// ---------------------------------------------------------------------------

/// What a script can change: the aliases, and what has been asked of the
/// host.
#[verifier::ext_equal]
pub struct World {
    pub aliases: Map<Seq<char>, Seq<Statement>>,
    pub log: Seq<HostEvent>,
}

/// `w` after one more request to the host.
pub open spec fn asked(w: World, event: HostEvent) -> World {
    World { aliases: w.aliases, log: w.log.push(event) }
}

/// `w` after a problem was reported.
pub open spec fn reported(w: World, message: Seq<char>) -> World {
    asked(w, HostEvent::Reported { message })
}

/// The arguments of a command, with `$N` replaced.
pub open spec fn resolved_args(raw: Seq<Seq<char>>, args: Seq<Seq<char>>) -> Seq<Seq<char>> {
    raw.map_values(|a: Seq<char>| substituted(a, args))
}

/// The names that no alias can have.
pub open spec fn reserved(name: Seq<char>) -> bool {
    name == "alias"@ || name == "if"@ || name == "load"@
}

/// `w` after the command `alias` with the arguments `args` and the given
/// block.
pub open spec fn alias_defined(
    w: World,
    args: Seq<Seq<char>>,
    block: Option<Seq<Statement>>,
) -> World {
    match block {
        Some(body) if args.len() > 0 => {
            let name = lower_text(args[0]);
            if reserved(name) {
                reported(
                    w,
                    "can't name an alias 'alias', 'if', or 'load' -- those are reserved"@,
                )
            } else {
                asked(
                    World { aliases: w.aliases.insert(name, body), log: w.log },
                    HostEvent::Ran {
                        name: "echo"@,
                        args: seq!["Alias '"@ + name + "' defined."@],
                    },
                )
            }
        },
        _ => reported(w, "usage: alias <name> { ...commands... }"@),
    }
}

/// `w` after a block was run with `args` in scope, `depth` blocks deep, where
/// the host answers as the transcript `t` says.
pub open spec fn block_run(
    block: Seq<Statement>,
    args: Seq<Seq<char>>,
    depth: nat,
    w: World,
    t: Seq<HostEvent>,
) -> World
    decreases MAX_DEPTH + 1 - depth, 3int, 0nat,
    when depth <= MAX_DEPTH + 1
{
    if depth > MAX_DEPTH {
        reported(w, "alias recursion limit exceeded"@)
    } else {
        statements_run(block, args, depth, w, t)
    }
}

/// `w` after the statements were run one after the other.
pub open spec fn statements_run(
    list: Seq<Statement>,
    args: Seq<Seq<char>>,
    depth: nat,
    w: World,
    t: Seq<HostEvent>,
) -> World
    decreases MAX_DEPTH + 1 - depth, 2int, list.len(),
    when depth <= MAX_DEPTH
{
    if list.len() == 0 {
        w
    } else {
        statement_run(
            list.last(),
            args,
            depth,
            statements_run(list.drop_last(), args, depth, w, t),
            t,
        )
    }
}

/// `w` after one statement was run.
pub open spec fn statement_run(
    statement: Statement,
    args: Seq<Seq<char>>,
    depth: nat,
    w: World,
    t: Seq<HostEvent>,
) -> World
    decreases MAX_DEPTH + 1 - depth, 1int, 0nat,
    when depth <= MAX_DEPTH
{
    match statement {
        Statement::If { cond, body } => {
            let (value, log) = evaluated(cond, args, w.log, t);
            let w = World { aliases: w.aliases, log };
            if value {
                block_run(body, args, depth + 1, w, t)
            } else {
                w
            }
        },
        Statement::Command { name, args: raw, block } => {
            let word = command_word(name);
            let given = resolved_args(raw, args);
            if word == "alias"@ {
                alias_defined(w, given, block)
            } else if word == "load"@ {
                loaded(given, depth, w, t)
            } else if word == "if"@ {
                reported(w, "usage: if <condition> { ...commands... }"@)
            } else if w.aliases.contains_key(word) {
                block_run(w.aliases[word], given, depth + 1, w, t)
            } else {
                asked(w, HostEvent::Ran { name: word, args: given })
            }
        },
    }
}

/// `w` after the command `load` with the arguments `given`. A loaded script
/// has no arguments in scope.
pub open spec fn loaded(
    given: Seq<Seq<char>>,
    depth: nat,
    w: World,
    t: Seq<HostEvent>,
) -> World
    decreases MAX_DEPTH + 1 - depth, 0int, 0nat,
    when depth <= MAX_DEPTH
{
    if given.len() == 0 {
        reported(w, "usage: load <file>"@)
    } else {
        let path = given[0];
        let reply = read_reply(t, w.log.len() as int);
        let w = asked(w, HostEvent::Read { path, reply });
        match reply {
            Err(reason) => reported(w, "could not read "@ + path + ": "@ + reason),
            Ok(text) => match script_of(text) {
                Parsed::Done(list, _) => block_run(list, seq![], depth + 1, w, t),
                Parsed::Fail(at, expected) => reported(
                    w,
                    "error parsing "@ + path + ": "@ + error_display(
                        text,
                        text.take(at),
                        expectation(expected),
                    ),
                ),
            },
        }
    }
}

// ---------------------------------------------------------------------------
// The interpreter
// ---------------------------------------------------------------------------

/// Holds user-defined aliases and executes parsed scripts against a
/// [`CommandHost`]. Create one and keep it around for the life of the
/// program so aliases persist across separate commands the user types over
/// time.
pub struct Interpreter {
    aliases: StringHashMap<Vec<Stmt>>,
}

impl View for Interpreter {
    type V = Map<Seq<char>, Seq<Statement>>;

    closed spec fn view(&self) -> Map<Seq<char>, Seq<Statement>> {
        self.aliases@.map_values(|b: Vec<Stmt>| block_of(b@))
    }
}

/// What a command name means.
fn command_word_of(name: &str) -> (r: String)
    ensures
        r@ == command_word(name@),
{
    let v = chars_of(name);
    let start = skip_run(v.as_slice(), 0, Class::Slash);
    assert(v@.subrange(start as int, v@.len() as int) =~= v@.skip(start as int));
    lowercase(string_between(v.as_slice(), start, v.len()).as_str())
}

/// The arguments of a command, with `$N` replaced.
fn resolve(raw: &Vec<String>, args: &[String]) -> (r: Vec<String>)
    ensures
        r.deep_view() == resolved_args(raw.deep_view(), args.deep_view()),
{
    let mut out: Vec<String> = Vec::new();
    let mut i: usize = 0;
    while i < raw.len()
        invariant
            i <= raw@.len(),
            out@.len() == i,
            forall|j: int|
                0 <= j < i ==> (#[trigger] out@[j])@ == substituted(raw@[j]@, args.deep_view()),
        decreases raw@.len() - i,
    {
        out.push(substitute(raw[i].as_str(), args));
        i = i + 1;
    }
    assert(out.deep_view() =~= resolved_args(raw.deep_view(), args.deep_view()));
    out
}

/// `alias`, `if` and `load` are different words.
proof fn lemma_other_words()
    ensures
        "alias"@ != "load"@,
        "alias"@ != "if"@,
        "load"@ != "if"@,
{
    reveal_strlit("alias");
    reveal_strlit("load");
    reveal_strlit("if");
    assert("alias"@.len() != "load"@.len());
    assert("alias"@.len() != "if"@.len());
    assert("load"@.len() != "if"@.len());
}

impl Interpreter {
    /// An interpreter that knows no alias.
    pub fn new() -> (r: Self)
        ensures
            r@ == Map::<Seq<char>, Seq<Statement>>::empty(),
    {
        let r = Interpreter { aliases: StringHashMap::new() };
        assert(r@ =~= Map::<Seq<char>, Seq<Statement>>::empty());
        r
    }

    /// Runs a parsed script with `args` as the in-scope `$1`, `$2`, ...
    /// values (empty at top level).
    pub fn exec(&mut self, script: &Script, args: &[String], host: &mut dyn CommandHost)
        ensures
            old(host).log().is_prefix_of(final(host).log()),
            final(host).answers() == old(host).answers(),
            all_answered(old(host).answers(), final(host).log(), old(host).log().len()),
            forall|t: Seq<HostEvent>|
                final(host).log().is_prefix_of(t) ==> #[trigger] block_run(
                    script@,
                    args.deep_view(),
                    0,
                    World { aliases: old(self)@, log: old(host).log() },
                    t,
                ) == (World { aliases: final(self)@, log: final(host).log() }),
    {
        self.exec_with(script, args, host);
    }

    /// Runs a parsed script against a host whose type is known.
    pub fn exec_with<H: CommandHost + ?Sized>(
        &mut self,
        script: &Script,
        args: &[String],
        host: &mut H,
    )
        ensures
            old(host).log().is_prefix_of(final(host).log()),
            final(host).answers() == old(host).answers(),
            all_answered(old(host).answers(), final(host).log(), old(host).log().len()),
            forall|t: Seq<HostEvent>|
                final(host).log().is_prefix_of(t) ==> #[trigger] block_run(
                    script@,
                    args.deep_view(),
                    0,
                    World { aliases: old(self)@, log: old(host).log() },
                    t,
                ) == (World { aliases: final(self)@, log: final(host).log() }),
    {
        self.exec_depth(script.statements(), args, host, 0);
    }

    fn exec_depth<H: CommandHost + ?Sized>(
        &mut self,
        stmts: &Vec<Stmt>,
        args: &[String],
        host: &mut H,
        depth: usize,
    )
        requires
            depth <= MAX_DEPTH + 1,
        ensures
            old(host).log().is_prefix_of(final(host).log()),
            final(host).answers() == old(host).answers(),
            all_answered(old(host).answers(), final(host).log(), old(host).log().len()),
            forall|t: Seq<HostEvent>|
                final(host).log().is_prefix_of(t) ==> #[trigger] block_run(
                    block_of(stmts@),
                    args.deep_view(),
                    depth as nat,
                    World { aliases: old(self)@, log: old(host).log() },
                    t,
                ) == (World { aliases: final(self)@, log: final(host).log() }),
        decreases MAX_DEPTH + 1 - depth, 2int,
    {
        if depth > MAX_DEPTH {
            host.report_error("alias recursion limit exceeded");
            proof {
                lemma_pushed(old(host).log(), host.log());
            }
            return;
        }
        let ghost w0 = World { aliases: self@, log: host.log() };
        let ghost a = args.deep_view();
        let ghost list = block_of(stmts@);
        let mut i: usize = 0;
        assert(list.take(0) =~= seq![]);
        assert(w0.log.is_prefix_of(w0.log));
        while i < stmts.len()
            invariant
                depth <= MAX_DEPTH,
                i <= stmts@.len(),
                a == args.deep_view(),
                list == block_of(stmts@),
                w0.log.is_prefix_of(host.log()),
                host.answers() == old(host).answers(),
                all_answered(old(host).answers(), host.log(), w0.log.len()),
                forall|t: Seq<HostEvent>|
                    host.log().is_prefix_of(t) ==> #[trigger] statements_run(
                        list.take(i as int),
                        a,
                        depth as nat,
                        w0,
                        t,
                    ) == (World { aliases: self@, log: host.log() }),
            decreases stmts@.len() - i,
        {
            let ghost w1 = World { aliases: self@, log: host.log() };
            self.exec_stmt(&stmts[i], args, host, depth);
            proof {
                let w2 = World { aliases: self@, log: host.log() };
                lemma_prefix_all(w0.log, w1.log, w2.log);
                lemma_answered_all(host.answers(), w0.log, w1.log, w2.log);
                assert(list.take(i + 1).drop_last() =~= list.take(i as int));
                assert(list.take(i + 1).last() == stmts@[i as int]@);
                assert forall|t: Seq<HostEvent>| w2.log.is_prefix_of(t) implies #[trigger]
                    statements_run(list.take(i + 1), a, depth as nat, w0, t) == w2 by {
                    assert(statements_run(list.take(i as int), a, depth as nat, w0, t) == w1);
                    assert(statement_run(stmts@[i as int]@, a, depth as nat, w1, t) == w2);
                }
            }
            i = i + 1;
        }
        assert(list.take(i as int) =~= list);
        assert forall|t: Seq<HostEvent>| host.log().is_prefix_of(t) implies #[trigger] block_run(
            list,
            a,
            depth as nat,
            w0,
            t,
        ) == (World { aliases: self@, log: host.log() }) by {
            assert(statements_run(list, a, depth as nat, w0, t) == (World {
                aliases: self@,
                log: host.log(),
            }));
        }
    }

    fn exec_stmt<H: CommandHost + ?Sized>(
        &mut self,
        stmt: &Stmt,
        args: &[String],
        host: &mut H,
        depth: usize,
    )
        requires
            depth <= MAX_DEPTH,
        ensures
            old(host).log().is_prefix_of(final(host).log()),
            final(host).answers() == old(host).answers(),
            all_answered(old(host).answers(), final(host).log(), old(host).log().len()),
            forall|t: Seq<HostEvent>|
                final(host).log().is_prefix_of(t) ==> #[trigger] statement_run(
                    stmt@,
                    args.deep_view(),
                    depth as nat,
                    World { aliases: old(self)@, log: old(host).log() },
                    t,
                ) == (World { aliases: final(self)@, log: final(host).log() }),
        decreases MAX_DEPTH + 1 - depth, 1int,
    {
        let ghost w0 = World { aliases: self@, log: host.log() };
        let ghost a = args.deep_view();
        match stmt {
            Stmt::If { cond, body } => {
                // The body shares the enclosing scope's arguments: it is
                // conditional execution, not a new alias invocation.
                let value = eval_expr(cond, args, host);
                let ghost w1 = World { aliases: self@, log: host.log() };
                if value {
                    self.exec_depth(body, args, host, depth + 1);
                    proof {
                        let w2 = World { aliases: self@, log: host.log() };
                        lemma_prefix_all(w0.log, w1.log, w2.log);
                        lemma_answered_all(host.answers(), w0.log, w1.log, w2.log);
                        assert forall|t: Seq<HostEvent>|
                            w2.log.is_prefix_of(t) implies #[trigger] statement_run(
                            stmt@,
                            a,
                            depth as nat,
                            w0,
                            t,
                        ) == w2 by {
                            assert(evaluated(cond@, a, w0.log, t) == (true, w1.log));
                            assert(block_run(block_of(body@), a, (depth + 1) as nat, w1, t) == w2);
                        }
                    }
                } else {
                    assert forall|t: Seq<HostEvent>|
                        w1.log.is_prefix_of(t) implies #[trigger] statement_run(
                        stmt@,
                        a,
                        depth as nat,
                        w0,
                        t,
                    ) == w1 by {
                        assert(evaluated(cond@, a, w0.log, t) == (false, w1.log));
                    }
                }
            },
            Stmt::Command { name, args: raw, block } => {
                let given = resolve(raw, args);
                let ghost g = given.deep_view();
                let given_args = given.as_slice();
                assert(given_args.deep_view() =~= g);
                let word = command_word_of(name.as_str());
                if same_text(word.as_str(), "alias") {
                    self.define_alias(&given, block, host);
                } else if same_text(word.as_str(), "load") {
                    self.exec_load(&given, host, depth);
                    proof {
                        lemma_other_words();
                        let w1 = World { aliases: self@, log: host.log() };
                        assert forall|t: Seq<HostEvent>|
                            w1.log.is_prefix_of(t) implies #[trigger] statement_run(
                            stmt@,
                            a,
                            depth as nat,
                            w0,
                            t,
                        ) == w1 by {
                            assert(loaded(g, depth as nat, w0, t) == w1);
                        }
                    }
                } else if same_text(word.as_str(), "if") {
                    host.report_error("usage: if <condition> { ...commands... }");
                    proof {
                        lemma_other_words();
                        lemma_pushed(w0.log, host.log());
                    }
                } else {
                    match self.aliases.get(word.as_str()) {
                        Some(body) => {
                            let body = copy_block(body);
                            self.exec_depth(&body, given_args, host, depth + 1);
                            proof {
                                let w1 = World { aliases: self@, log: host.log() };
                                assert(w0.aliases[word@] == block_of(body@));
                                assert forall|t: Seq<HostEvent>|
                                    w1.log.is_prefix_of(t) implies #[trigger] statement_run(
                                    stmt@,
                                    a,
                                    depth as nat,
                                    w0,
                                    t,
                                ) == w1 by {
                                    assert(block_run(
                                        block_of(body@),
                                        g,
                                        (depth + 1) as nat,
                                        w0,
                                        t,
                                    ) == w1);
                                }
                            }
                        },
                        None => {
                            host.run_command(word.as_str(), given_args);
                            proof {
                                lemma_pushed(w0.log, host.log());
                            }
                        },
                    }
                }
            },
        }
    }

    fn define_alias<H: CommandHost + ?Sized>(
        &mut self,
        given: &Vec<String>,
        block: &Option<Vec<Stmt>>,
        host: &mut H,
    )
        ensures
            old(host).log().is_prefix_of(final(host).log()),
            final(host).answers() == old(host).answers(),
            all_answered(old(host).answers(), final(host).log(), old(host).log().len()),
            alias_defined(
                World { aliases: old(self)@, log: old(host).log() },
                given.deep_view(),
                match *block {
                    Some(b) => Some(block_of(b@)),
                    None => None,
                },
            ) == (World { aliases: final(self)@, log: final(host).log() }),
    {
        let ghost log0 = host.log();
        let body = match block {
            Some(body) => body,
            None => {
                host.report_error("usage: alias <name> { ...commands... }");
                proof {
                    lemma_pushed(log0, host.log());
                }
                return;
            },
        };
        if given.len() == 0 {
            host.report_error("usage: alias <name> { ...commands... }");
            proof {
                lemma_pushed(log0, host.log());
            }
            return;
        }
        let name = lowercase(given[0].as_str());
        if same_text(name.as_str(), "alias") || same_text(name.as_str(), "if") || same_text(
            name.as_str(),
            "load",
        ) {
            host.report_error("can't name an alias 'alias', 'if', or 'load' -- those are reserved");
            proof {
                lemma_pushed(log0, host.log());
            }
            return;
        }
        let text = chain(chain("Alias '", name.as_str()).as_str(), "' defined.");
        let mut echoed: Vec<String> = Vec::new();
        echoed.push(text);
        let echo_args = echoed.as_slice();
        proof {
            assert(echo_args.deep_view() =~= seq![text@]);
        }
        self.aliases.insert(name, copy_block(body));
        assert(self@ =~= old(self)@.insert(name@, block_of(body@)));
        host.run_command("echo", echo_args);
        proof {
            lemma_pushed(log0, host.log());
        }
    }

    fn exec_load<H: CommandHost + ?Sized>(&mut self, given: &Vec<String>, host: &mut H, depth: usize)
        requires
            depth <= MAX_DEPTH,
        ensures
            old(host).log().is_prefix_of(final(host).log()),
            final(host).answers() == old(host).answers(),
            all_answered(old(host).answers(), final(host).log(), old(host).log().len()),
            forall|t: Seq<HostEvent>|
                final(host).log().is_prefix_of(t) ==> #[trigger] loaded(
                    given.deep_view(),
                    depth as nat,
                    World { aliases: old(self)@, log: old(host).log() },
                    t,
                ) == (World { aliases: final(self)@, log: final(host).log() }),
        decreases MAX_DEPTH + 1 - depth, 0int,
    {
        let ghost w0 = World { aliases: self@, log: host.log() };
        let ghost g = given.deep_view();
        if given.len() == 0 {
            host.report_error("usage: load <file>");
            proof {
                lemma_pushed(w0.log, host.log());
            }
            return;
        }
        let path = given[0].as_str();
        let reply = host.read_script_file(path);
        let ghost w1 = World { aliases: self@, log: host.log() };
        proof {
            lemma_pushed(w0.log, w1.log);
            assert(g[0] == path@);
            assert forall|t: Seq<HostEvent>| #[trigger] w1.log.is_prefix_of(t) implies read_reply(
                t,
                w0.log.len() as int,
            ) == reply_of(reply) by {
                lemma_prefix_index(w1.log, t, w0.log.len() as int);
            }
        }
        match reply {
            Err(reason) => {
                let start = chain(chain("could not read ", path).as_str(), ": ");
                host.report_error(chain(start.as_str(), reason.as_str()).as_str());
                proof {
                    lemma_pushed(w1.log, host.log());
                    lemma_prefix_all(w0.log, w1.log, host.log());
                    lemma_answered_all(host.answers(), w0.log, w1.log, host.log());
                }
            },
            Ok(text) => {
                match parse_script(text.as_str()) {
                    Err(message) => {
                        let start = chain(chain("error parsing ", path).as_str(), ": ");
                        host.report_error(chain(start.as_str(), message.as_str()).as_str());
                        proof {
                            lemma_pushed(w1.log, host.log());
                            lemma_prefix_all(w0.log, w1.log, host.log());
                            lemma_answered_all(host.answers(), w0.log, w1.log, host.log());
                        }
                    },
                    Ok(script) => {
                        let none: Vec<String> = Vec::new();
                        let no_args = none.as_slice();
                        let stmts = script.statements();
                        self.exec_depth(stmts, no_args, host, depth + 1);
                        proof {
                            assert(no_args.deep_view() =~= Seq::<Seq<char>>::empty());
                            let w2 = World { aliases: self@, log: host.log() };
                            lemma_prefix_all(w0.log, w1.log, w2.log);
                            lemma_answered_all(host.answers(), w0.log, w1.log, w2.log);
                            assert forall|t: Seq<HostEvent>|
                                w2.log.is_prefix_of(t) implies #[trigger] loaded(
                                g,
                                depth as nat,
                                w0,
                                t,
                            ) == w2 by {
                                assert(block_run(
                                    script@,
                                    Seq::<Seq<char>>::empty(),
                                    (depth + 1) as nat,
                                    w1,
                                    t,
                                ) == w2);
                            }
                        }
                    },
                }
            },
        }
    }
}

impl Default for Interpreter {
    fn default() -> (r: Self)
        ensures
            r@ == Map::<Seq<char>, Seq<Statement>>::empty(),
    {
        Self::new()
    }
}

} // verus!
