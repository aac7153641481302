//! What holds of running scripts as a whole.

use vstd::prelude::*;

use crate::ast::{Cond, Statement};
use crate::eval::evaluated;
use crate::eval_laws::law_condition_asks;
use crate::grammar::{command_word, means_if, script_of, Parsed};
use crate::host::{
    lemma_prefix_all, lemma_prefix_index, lemma_pushed, number_reply, read_reply, HostEvent,
};
use crate::interp::{
    alias_defined, asked, block_run, loaded, reported, reserved, resolved_args, statement_run,
    statements_run, MAX_DEPTH, World,
};
use crate::parser::{error_display, expectation};
use crate::subst::substituted;
use crate::text::{in_class, lemma_run_end, lower, lower_text, run_end, Class};

verus! {

// ---------------------------------------------------------------------------
// Command names
// ---------------------------------------------------------------------------

proof fn lemma_slash_run(name: Seq<char>, p: int)
    requires
        0 <= p <= name.len(),
    ensures
        run_end(seq!['/'] + name, p + 1, Class::Slash) == run_end(name, p, Class::Slash) + 1,
    decreases name.len() - p,
{
    let longer = seq!['/'] + name;
    if p < name.len() {
        assert(longer[p + 1] == name[p]);
        if in_class(Class::Slash, name[p]) {
            lemma_slash_run(name, p + 1);
        }
    }
}

/// A leading `/` on a command name makes no difference.
pub proof fn law_leading_slash(name: Seq<char>)
    ensures
        command_word(seq!['/'] + name) == command_word(name),
        means_if(seq!['/'] + name) == means_if(name),
{
    let longer = seq!['/'] + name;
    lemma_slash_run(name, 0);
    assert(run_end(longer, 0, Class::Slash) == run_end(longer, 1, Class::Slash));
    lemma_run_end(name, 0, Class::Slash);
    let k = run_end(name, 0, Class::Slash);
    assert(longer.skip(k + 1) =~= name.skip(k));
}

/// Making a text lower case twice is making it lower case once.
pub proof fn law_lower_twice(s: Seq<char>)
    ensures
        lower_text(lower_text(s)) == lower_text(s),
{
    assert forall|i: int| 0 <= i < s.len() implies lower(lower(#[trigger] s[i])) == lower(s[i]) by {
    }
    assert(lower_text(lower_text(s)) =~= lower_text(s));
}

proof fn lemma_lower_slashes(s: Seq<char>, p: int)
    requires
        0 <= p <= s.len(),
    ensures
        run_end(lower_text(s), p, Class::Slash) == run_end(s, p, Class::Slash),
    decreases s.len() - p,
{
    if p < s.len() {
        assert(lower_text(s)[p] == lower(s[p]));
        lemma_lower_slashes(s, p + 1);
    }
}

/// The case of the letters of a command name makes no difference.
pub proof fn law_command_case(name: Seq<char>)
    ensures
        command_word(lower_text(name)) == command_word(name),
{
    lemma_lower_slashes(name, 0);
    lemma_run_end(name, 0, Class::Slash);
    let k = run_end(name, 0, Class::Slash);
    assert(lower_text(name).skip(k) =~= lower_text(name.skip(k)));
    law_lower_twice(name.skip(k));
}

/// Two names that differ only in the case of their ASCII letters mean the
/// same command.
pub proof fn law_same_letters(name: Seq<char>, other: Seq<char>)
    requires
        lower_text(name) == lower_text(other),
    ensures
        command_word(name) == command_word(other),
{
    law_command_case(name);
    law_command_case(other);
}

/// Two statements whose command names mean the same do the same, wherever
/// they stand: builtins, aliases and commands of the host alike.
pub proof fn law_names_run_alike(
    name: Seq<char>,
    other: Seq<char>,
    raw: Seq<Seq<char>>,
    block: Option<Seq<Statement>>,
    args: Seq<Seq<char>>,
    depth: nat,
    w: World,
    t: Seq<HostEvent>,
)
    requires
        depth <= MAX_DEPTH,
        command_word(name) == command_word(other),
    ensures
        statement_run(Statement::Command { name, args: raw, block }, args, depth, w, t)
            == statement_run(
            Statement::Command { name: other, args: raw, block },
            args,
            depth,
            w,
            t,
        ),
{
}

/// Whether two statements are the same but for how a command name is written.
pub open spec fn same_meaning(one: Statement, other: Statement) -> bool {
    ||| one == other
    ||| {
        &&& one is Command
        &&& other is Command
        &&& command_word(one->name) == command_word(other->name)
        &&& one->args == other->args
        &&& one->block == other->block
    }
}

/// Two scripts whose statements differ only in how command names are written,
/// in leading slashes and in the case of letters, do the same: they ask the
/// host for the same in the same order, and leave the same aliases.
pub proof fn law_scripts_run_alike(
    one: Seq<Statement>,
    other: Seq<Statement>,
    args: Seq<Seq<char>>,
    depth: nat,
    w: World,
    t: Seq<HostEvent>,
)
    requires
        depth <= MAX_DEPTH + 1,
        one.len() == other.len(),
        forall|i: int| 0 <= i < one.len() ==> same_meaning(#[trigger] one[i], other[i]),
    ensures
        block_run(one, args, depth, w, t) == block_run(other, args, depth, w, t),
{
    if depth <= MAX_DEPTH {
        lemma_lists_run_alike(one, other, args, depth, w, t);
    }
}

proof fn lemma_lists_run_alike(
    one: Seq<Statement>,
    other: Seq<Statement>,
    args: Seq<Seq<char>>,
    depth: nat,
    w: World,
    t: Seq<HostEvent>,
)
    requires
        depth <= MAX_DEPTH,
        one.len() == other.len(),
        forall|i: int| 0 <= i < one.len() ==> same_meaning(#[trigger] one[i], other[i]),
    ensures
        statements_run(one, args, depth, w, t) == statements_run(other, args, depth, w, t),
    decreases one.len(),
{
    if one.len() > 0 {
        let n = one.len() - 1;
        assert(same_meaning(one[n], other[n]));
        assert forall|i: int| 0 <= i < n implies same_meaning(
            #[trigger] one.drop_last()[i],
            other.drop_last()[i],
        ) by {
            assert(same_meaning(one[i], other[i]));
        }
        lemma_lists_run_alike(one.drop_last(), other.drop_last(), args, depth, w, t);
        let middle = statements_run(one.drop_last(), args, depth, w, t);
        if one[n] != other[n] {
            let raw = one[n]->args;
            let block = one[n]->block;
            law_names_run_alike(one[n]->name, other[n]->name, raw, block, args, depth, middle, t);
            assert(one[n] == (Statement::Command { name: one[n]->name, args: raw, block }));
            assert(other[n] == (Statement::Command { name: other[n]->name, args: raw, block }));
        }
        assert(statement_run(one[n], args, depth, middle, t) == statement_run(
            other[n],
            args,
            depth,
            middle,
            t,
        ));
    }
}

/// Two statements that differ only in the case of the letters of the command
/// name do the same, wherever they stand.
pub proof fn law_case_runs_alike(
    name: Seq<char>,
    other: Seq<char>,
    raw: Seq<Seq<char>>,
    block: Option<Seq<Statement>>,
    args: Seq<Seq<char>>,
    depth: nat,
    w: World,
    t: Seq<HostEvent>,
)
    requires
        depth <= MAX_DEPTH,
        lower_text(name) == lower_text(other),
    ensures
        statement_run(Statement::Command { name, args: raw, block }, args, depth, w, t)
            == statement_run(
            Statement::Command { name: other, args: raw, block },
            args,
            depth,
            w,
            t,
        ),
{
    law_same_letters(name, other);
    law_names_run_alike(name, other, raw, block, args, depth, w, t);
}

/// Two statements that differ only in a leading `/` of the command name do
/// the same, wherever they stand.
pub proof fn law_slash_runs_alike(
    name: Seq<char>,
    raw: Seq<Seq<char>>,
    block: Option<Seq<Statement>>,
    args: Seq<Seq<char>>,
    depth: nat,
    w: World,
    t: Seq<HostEvent>,
)
    requires
        depth <= MAX_DEPTH,
    ensures
        statement_run(
            Statement::Command { name: seq!['/'] + name, args: raw, block },
            args,
            depth,
            w,
            t,
        ) == statement_run(Statement::Command { name, args: raw, block }, args, depth, w, t),
{
    law_leading_slash(name);
    law_names_run_alike(seq!['/'] + name, name, raw, block, args, depth, w, t);
}

// ---------------------------------------------------------------------------
// What every run keeps
// ---------------------------------------------------------------------------

/// Whether the aliases have names that an alias can have, in lower case.
pub open spec fn well_named(aliases: Map<Seq<char>, Seq<Statement>>) -> bool {
    forall|name: Seq<char>| #[trigger]
        aliases.contains_key(name) ==> !reserved(name) && lower_text(name) == name
}

/// Whether `after` can come of running something in `before`: no alias is
/// lost, no name is taken that must not be, and nothing that the host was
/// asked for is taken back.
pub open spec fn keeps(before: World, after: World) -> bool {
    &&& before.log.is_prefix_of(after.log)
    &&& forall|name: Seq<char>| #[trigger]
        before.aliases.contains_key(name) ==> after.aliases.contains_key(name)
    &&& well_named(before.aliases) ==> well_named(after.aliases)
}

proof fn lemma_keeps_chain(a: World, b: World, c: World)
    requires
        keeps(a, b),
        keeps(b, c),
    ensures
        keeps(a, c),
{
    lemma_prefix_all(a.log, b.log, c.log);
}

proof fn lemma_asked_keeps(w: World, event: HostEvent)
    ensures
        keeps(w, asked(w, event)),
{
    lemma_pushed(w.log, asked(w, event).log);
}

proof fn lemma_alias_keeps(w: World, args: Seq<Seq<char>>, block: Option<Seq<Statement>>)
    ensures
        keeps(w, alias_defined(w, args, block)),
{
    let after = alias_defined(w, args, block);
    lemma_pushed(w.log, after.log);
    if args.len() > 0 {
        law_lower_twice(args[0]);
    }
}

/// Running a block keeps all aliases, keeps them well named, and only adds to
/// what the host was asked for, whatever the host answers.
pub proof fn law_run_keeps(
    block: Seq<Statement>,
    args: Seq<Seq<char>>,
    depth: nat,
    w: World,
    t: Seq<HostEvent>,
)
    requires
        depth <= MAX_DEPTH + 1,
    ensures
        keeps(w, block_run(block, args, depth, w, t)),
    decreases MAX_DEPTH + 1 - depth, 3int, 0nat,
{
    if depth > MAX_DEPTH {
        lemma_asked_keeps(w, HostEvent::Reported { message: "alias recursion limit exceeded"@ });
    } else {
        lemma_statements_keep(block, args, depth, w, t);
    }
}

proof fn lemma_statements_keep(
    list: Seq<Statement>,
    args: Seq<Seq<char>>,
    depth: nat,
    w: World,
    t: Seq<HostEvent>,
)
    requires
        depth <= MAX_DEPTH,
    ensures
        keeps(w, statements_run(list, args, depth, w, t)),
    decreases MAX_DEPTH + 1 - depth, 2int, list.len(),
{
    if list.len() == 0 {
        assert(w.log.is_prefix_of(w.log));
    } else {
        let middle = statements_run(list.drop_last(), args, depth, w, t);
        lemma_statements_keep(list.drop_last(), args, depth, w, t);
        lemma_statement_keeps(list.last(), args, depth, middle, t);
        lemma_keeps_chain(w, middle, statements_run(list, args, depth, w, t));
    }
}

proof fn lemma_statement_keeps(
    statement: Statement,
    args: Seq<Seq<char>>,
    depth: nat,
    w: World,
    t: Seq<HostEvent>,
)
    requires
        depth <= MAX_DEPTH,
    ensures
        keeps(w, statement_run(statement, args, depth, w, t)),
    decreases MAX_DEPTH + 1 - depth, 1int, 0nat,
{
    let after = statement_run(statement, args, depth, w, t);
    match statement {
        Statement::If { cond, body } => {
            law_condition_asks(cond, args, w.log, t);
            let (value, log) = evaluated(cond, args, w.log, t);
            let middle = World { aliases: w.aliases, log };
            if value {
                law_run_keeps(body, args, depth + 1, middle, t);
                lemma_keeps_chain(w, middle, after);
            }
        },
        Statement::Command { name, args: raw, block } => {
            let word = command_word(name);
            let given = resolved_args(raw, args);
            if word == "alias"@ {
                lemma_alias_keeps(w, given, block);
            } else if word == "load"@ {
                lemma_load_keeps(given, depth, w, t);
            } else if word == "if"@ {
                lemma_asked_keeps(w, after.log.last());
            } else if w.aliases.contains_key(word) {
                law_run_keeps(w.aliases[word], given, depth + 1, w, t);
            } else {
                lemma_asked_keeps(w, HostEvent::Ran { name: word, args: given });
            }
        },
    }
}

proof fn lemma_load_keeps(given: Seq<Seq<char>>, depth: nat, w: World, t: Seq<HostEvent>)
    requires
        depth <= MAX_DEPTH,
    ensures
        keeps(w, loaded(given, depth, w, t)),
    decreases MAX_DEPTH + 1 - depth, 0int, 0nat,
{
    let after = loaded(given, depth, w, t);
    if given.len() == 0 {
        lemma_asked_keeps(w, HostEvent::Reported { message: "usage: load <file>"@ });
    } else {
        let reply = read_reply(t, w.log.len() as int);
        let read = HostEvent::Read { path: given[0], reply };
        let middle = asked(w, read);
        lemma_asked_keeps(w, read);
        match reply {
            Err(_) => {
                lemma_asked_keeps(middle, after.log.last());
            },
            Ok(text) => match script_of(text) {
                Parsed::Done(list, _) => {
                    law_run_keeps(list, seq![], depth + 1, middle, t);
                },
                Parsed::Fail(_, _) => {
                    lemma_asked_keeps(middle, after.log.last());
                },
            },
        }
        lemma_keeps_chain(w, middle, after);
    }
}

// ---------------------------------------------------------------------------
// Aliases
// ---------------------------------------------------------------------------

/// An alias that was just defined is what its name stands for from then on:
/// calling it, in any case and with or without a `/`, runs its body with the
/// arguments of the call.
pub proof fn law_defined_alias_runs(
    name: Seq<char>,
    body: Seq<Statement>,
    call: Seq<char>,
    raw: Seq<Seq<char>>,
    args: Seq<Seq<char>>,
    depth: nat,
    w: World,
    t: Seq<HostEvent>,
)
    requires
        depth <= MAX_DEPTH,
        !reserved(lower_text(name)),
        command_word(call) == lower_text(name),
    ensures
        ({
            let defined = alias_defined(w, seq![name], Some(body));
            &&& defined.aliases == w.aliases.insert(lower_text(name), body)
            &&& statement_run(
                Statement::Command { name: call, args: raw, block: None },
                args,
                depth,
                defined,
                t,
            ) == block_run(body, resolved_args(raw, args), depth + 1, defined, t)
        }),
{
}

/// `alias`, `if` and `load` cannot be redefined: the attempt is reported and
/// changes nothing.
pub proof fn law_reserved_names(
    name: Seq<char>,
    more: Seq<Seq<char>>,
    body: Seq<Statement>,
    w: World,
)
    requires
        reserved(lower_text(name)),
    ensures
        alias_defined(w, seq![name] + more, Some(body)) == reported(
            w,
            "can't name an alias 'alias', 'if', or 'load' -- those are reserved"@,
        ),
{
}

/// The statement that calls `name` without arguments.
pub open spec fn bare_call(name: Seq<char>) -> Statement {
    Statement::Command { name, args: seq![], block: None }
}

/// An alias that does nothing but call itself ends with one report, wherever
/// it is called.
pub proof fn law_runaway_alias(name: Seq<char>, depth: nat, w: World, t: Seq<HostEvent>)
    requires
        depth <= MAX_DEPTH + 1,
        w.aliases.contains_key(command_word(name)),
        w.aliases[command_word(name)] == seq![bare_call(name)],
        command_word(name) != "alias"@,
        command_word(name) != "load"@,
        command_word(name) != "if"@,
    ensures
        block_run(seq![bare_call(name)], seq![], depth, w, t) == reported(
            w,
            "alias recursion limit exceeded"@,
        ),
    decreases MAX_DEPTH + 1 - depth,
{
    if depth <= MAX_DEPTH {
        let list = seq![bare_call(name)];
        law_runaway_alias(name, depth + 1, w, t);
        assert(list.drop_last() =~= seq![]);
        assert(resolved_args(seq![], seq![]) =~= seq![]);
        assert(statements_run(list.drop_last(), seq![], depth, w, t) == w);
        assert(statements_run(list, seq![], depth, w, t) == statement_run(
            bare_call(name),
            seq![],
            depth,
            w,
            t,
        ));
    }
}

/// Running one list of statements behind another is running both in turn.
pub proof fn law_statements_in_turn(
    first: Seq<Statement>,
    second: Seq<Statement>,
    args: Seq<Seq<char>>,
    depth: nat,
    w: World,
    t: Seq<HostEvent>,
)
    requires
        depth <= MAX_DEPTH,
    ensures
        statements_run(first + second, args, depth, w, t) == statements_run(
            second,
            args,
            depth,
            statements_run(first, args, depth, w, t),
            t,
        ),
    decreases second.len(),
{
    if second.len() == 0 {
        assert(first + second =~= first);
    } else {
        assert((first + second).drop_last() =~= first + second.drop_last());
        law_statements_in_turn(first, second.drop_last(), args, depth, w, t);
    }
}

// ---------------------------------------------------------------------------
// Hosts that are asked nothing
// ---------------------------------------------------------------------------

/// Whether from place `from` on the host was only told things, and nothing
/// was asked that it has to answer.
pub open spec fn only_told(log: Seq<HostEvent>, from: nat) -> bool {
    forall|i: int| from <= i < log.len() ==> (#[trigger] log[i]) is Ran || log[i] is Reported
}

proof fn lemma_only_told_before(shorter: Seq<HostEvent>, longer: Seq<HostEvent>, from: nat)
    requires
        shorter.is_prefix_of(longer),
        only_told(longer, from),
    ensures
        only_told(shorter, from),
{
    assert forall|i: int| from <= i < shorter.len() implies (#[trigger] shorter[i]) is Ran
        || shorter[i] is Reported by {
        lemma_prefix_index(shorter, longer, i);
        assert(longer[i] is Ran || longer[i] is Reported);
    }
}

proof fn lemma_condition_alike(
    cond: Cond,
    args: Seq<Seq<char>>,
    log: Seq<HostEvent>,
    t: Seq<HostEvent>,
    u: Seq<HostEvent>,
)
    requires
        evaluated(cond, args, log, t).1 == log,
    ensures
        evaluated(cond, args, log, t) == evaluated(cond, args, log, u),
    decreases cond,
{
    match cond {
        Cond::And(l, r) => {
            lemma_condition_quiet(*l, *r, args, log, t, evaluated(*l, args, log, t).0);
            lemma_condition_alike(*l, args, log, t, u);
            if evaluated(*l, args, log, t).0 {
                lemma_condition_alike(*r, args, log, t, u);
            }
        },
        Cond::Or(l, r) => {
            lemma_condition_quiet(*l, *r, args, log, t, !evaluated(*l, args, log, t).0);
            lemma_condition_alike(*l, args, log, t, u);
            if !evaluated(*l, args, log, t).0 {
                lemma_condition_alike(*r, args, log, t, u);
            }
        },
        Cond::Atom(_) => {},
        Cond::Cmp(_, _, _) => {},
    }
}

/// Where both sides together ask for nothing, the left side asks for nothing.
proof fn lemma_condition_quiet(
    l: Cond,
    r: Cond,
    args: Seq<Seq<char>>,
    log: Seq<HostEvent>,
    t: Seq<HostEvent>,
    both: bool,
)
    requires
        both ==> evaluated(r, args, evaluated(l, args, log, t).1, t).1 == log,
        !both ==> evaluated(l, args, log, t).1 == log,
    ensures
        evaluated(l, args, log, t).1 == log,
{
    let middle = evaluated(l, args, log, t).1;
    law_condition_asks(l, args, log, t);
    law_condition_asks(r, args, middle, t);
    assert(log.subrange(0, log.len() as int) =~= log);
    assert(middle.subrange(0, middle.len() as int) =~= middle);
}

/// A run that asks the host nothing that has to be answered, reading no file
/// and comparing no numbers, is the same whatever the host would answer.
pub proof fn law_told_alike(
    block: Seq<Statement>,
    args: Seq<Seq<char>>,
    depth: nat,
    w: World,
    t: Seq<HostEvent>,
    u: Seq<HostEvent>,
)
    requires
        depth <= MAX_DEPTH + 1,
        only_told(block_run(block, args, depth, w, t).log, w.log.len()),
    ensures
        block_run(block, args, depth, w, t) == block_run(block, args, depth, w, u),
    decreases MAX_DEPTH + 1 - depth, 3int, 0nat,
{
    if depth <= MAX_DEPTH {
        lemma_statements_alike(block, args, depth, w, t, u);
    }
}

proof fn lemma_statements_alike(
    list: Seq<Statement>,
    args: Seq<Seq<char>>,
    depth: nat,
    w: World,
    t: Seq<HostEvent>,
    u: Seq<HostEvent>,
)
    requires
        depth <= MAX_DEPTH,
        only_told(statements_run(list, args, depth, w, t).log, w.log.len()),
    ensures
        statements_run(list, args, depth, w, t) == statements_run(list, args, depth, w, u),
    decreases MAX_DEPTH + 1 - depth, 2int, list.len(),
{
    if list.len() > 0 {
        let middle = statements_run(list.drop_last(), args, depth, w, t);
        let after = statements_run(list, args, depth, w, t);
        lemma_statements_keep(list.drop_last(), args, depth, w, t);
        lemma_statement_keeps(list.last(), args, depth, middle, t);
        lemma_only_told_before(middle.log, after.log, w.log.len());
        lemma_statements_alike(list.drop_last(), args, depth, w, t, u);
        lemma_statement_alike(list.last(), args, depth, middle, t, u);
    }
}

proof fn lemma_statement_alike(
    statement: Statement,
    args: Seq<Seq<char>>,
    depth: nat,
    w: World,
    t: Seq<HostEvent>,
    u: Seq<HostEvent>,
)
    requires
        depth <= MAX_DEPTH,
        only_told(statement_run(statement, args, depth, w, t).log, w.log.len()),
    ensures
        statement_run(statement, args, depth, w, t) == statement_run(statement, args, depth, w, u),
    decreases MAX_DEPTH + 1 - depth, 1int, 0nat,
{
    let after = statement_run(statement, args, depth, w, t);
    match statement {
        Statement::If { cond, body } => {
            let (value, log) = evaluated(cond, args, w.log, t);
            let middle = World { aliases: w.aliases, log };
            law_condition_asks(cond, args, w.log, t);
            if value {
                law_run_keeps(body, args, depth + 1, middle, t);
            } else {
                assert(log.is_prefix_of(log));
            }
            lemma_only_told_before(log, after.log, w.log.len());
            if log.len() > w.log.len() {
                assert(log[w.log.len() as int] is Compared);
            }
            assert(log.subrange(0, w.log.len() as int) =~= log);
            lemma_condition_alike(cond, args, w.log, t, u);
            if value {
                law_told_alike(body, args, depth + 1, middle, t, u);
            }
        },
        Statement::Command { name, args: raw, block } => {
            let word = command_word(name);
            let given = resolved_args(raw, args);
            if word == "alias"@ {
            } else if word == "load"@ {
                if given.len() > 0 {
                    lemma_load_reads(given, depth, w, t);
                    assert(after.log[w.log.len() as int] is Ran
                        || after.log[w.log.len() as int] is Reported);
                }
            } else if word == "if"@ {
            } else if w.aliases.contains_key(word) {
                law_told_alike(w.aliases[word], given, depth + 1, w, t, u);
            }
        },
    }
}

/// `load` with a path asks for the file.
proof fn lemma_load_reads(given: Seq<Seq<char>>, depth: nat, w: World, t: Seq<HostEvent>)
    requires
        depth <= MAX_DEPTH,
        given.len() > 0,
    ensures
        loaded(given, depth, w, t).log.len() > w.log.len(),
        loaded(given, depth, w, t).log[w.log.len() as int] is Read,
{
    let after = loaded(given, depth, w, t);
    let reply = read_reply(t, w.log.len() as int);
    let middle = asked(w, HostEvent::Read { path: given[0], reply });
    if let Ok(text) = reply {
        if let Parsed::Done(list, _) = script_of(text) {
            law_run_keeps(list, seq![], depth + 1, middle, t);
            lemma_prefix_index(middle.log, after.log, w.log.len() as int);
        }
    }
}

// ---------------------------------------------------------------------------
// Builtins
// ---------------------------------------------------------------------------

/// Whether from place `from` on the host was asked to run no command named
/// like a builtin.
pub open spec fn no_builtin_run(log: Seq<HostEvent>, from: nat) -> bool {
    forall|i: int|
        from <= i < log.len() && (#[trigger] log[i]) is Ran ==> !reserved(log[i]->name)
}

proof fn lemma_no_builtin_chain(a: Seq<HostEvent>, b: Seq<HostEvent>, c: Seq<HostEvent>)
    requires
        a.len() <= b.len(),
        b.is_prefix_of(c),
        no_builtin_run(b, a.len()),
        no_builtin_run(c, b.len()),
    ensures
        no_builtin_run(c, a.len()),
{
    assert forall|i: int| a.len() <= i < c.len() && (#[trigger] c[i]) is Ran implies !reserved(
        c[i]->name,
    ) by {
        if i < b.len() {
            lemma_prefix_index(b, c, i);
            assert(b[i] is Ran);
        }
    }
}

/// Whatever a script holds, the host is never asked to run a command named
/// `alias`, `if` or `load`.
pub proof fn law_builtins_stay_inside(
    block: Seq<Statement>,
    args: Seq<Seq<char>>,
    depth: nat,
    w: World,
    t: Seq<HostEvent>,
)
    requires
        depth <= MAX_DEPTH + 1,
    ensures
        no_builtin_run(block_run(block, args, depth, w, t).log, w.log.len()),
    decreases MAX_DEPTH + 1 - depth, 3int, 0nat,
{
    if depth <= MAX_DEPTH {
        lemma_statements_inside(block, args, depth, w, t);
    }
}

proof fn lemma_statements_inside(
    list: Seq<Statement>,
    args: Seq<Seq<char>>,
    depth: nat,
    w: World,
    t: Seq<HostEvent>,
)
    requires
        depth <= MAX_DEPTH,
    ensures
        no_builtin_run(statements_run(list, args, depth, w, t).log, w.log.len()),
    decreases MAX_DEPTH + 1 - depth, 2int, list.len(),
{
    if list.len() > 0 {
        let middle = statements_run(list.drop_last(), args, depth, w, t);
        let after = statements_run(list, args, depth, w, t);
        lemma_statements_keep(list.drop_last(), args, depth, w, t);
        lemma_statement_keeps(list.last(), args, depth, middle, t);
        lemma_statements_inside(list.drop_last(), args, depth, w, t);
        lemma_statement_inside(list.last(), args, depth, middle, t);
        lemma_no_builtin_chain(w.log, middle.log, after.log);
    }
}

proof fn lemma_statement_inside(
    statement: Statement,
    args: Seq<Seq<char>>,
    depth: nat,
    w: World,
    t: Seq<HostEvent>,
)
    requires
        depth <= MAX_DEPTH,
    ensures
        no_builtin_run(statement_run(statement, args, depth, w, t).log, w.log.len()),
    decreases MAX_DEPTH + 1 - depth, 1int, 0nat,
{
    let after = statement_run(statement, args, depth, w, t);
    match statement {
        Statement::If { cond, body } => {
            law_condition_asks(cond, args, w.log, t);
            let (value, log) = evaluated(cond, args, w.log, t);
            let middle = World { aliases: w.aliases, log };
            if value {
                law_run_keeps(body, args, depth + 1, middle, t);
                law_builtins_stay_inside(body, args, depth + 1, middle, t);
                lemma_no_builtin_chain(w.log, log, after.log);
            }
        },
        Statement::Command { name, args: raw, block } => {
            let word = command_word(name);
            let given = resolved_args(raw, args);
            if word == "alias"@ {
                lemma_echo_is_free();
            } else if word == "load"@ {
                lemma_load_inside(given, depth, w, t);
            } else if word == "if"@ {
            } else if w.aliases.contains_key(word) {
                law_builtins_stay_inside(w.aliases[word], given, depth + 1, w, t);
            }
        },
    }
}

/// `echo` is no builtin.
proof fn lemma_echo_is_free()
    ensures
        !reserved("echo"@),
{
    reveal_strlit("echo");
    reveal_strlit("alias");
    reveal_strlit("if");
    reveal_strlit("load");
    assert("echo"@[0] != "load"@[0]);
    assert("echo"@.len() != "alias"@.len());
    assert("echo"@.len() != "if"@.len());
}

proof fn lemma_load_inside(given: Seq<Seq<char>>, depth: nat, w: World, t: Seq<HostEvent>)
    requires
        depth <= MAX_DEPTH,
    ensures
        no_builtin_run(loaded(given, depth, w, t).log, w.log.len()),
    decreases MAX_DEPTH + 1 - depth, 0int, 0nat,
{
    let after = loaded(given, depth, w, t);
    if given.len() > 0 {
        let reply = read_reply(t, w.log.len() as int);
        let middle = asked(w, HostEvent::Read { path: given[0], reply });
        if let Ok(text) = reply {
            if let Parsed::Done(list, _) = script_of(text) {
                law_run_keeps(list, seq![], depth + 1, middle, t);
                law_builtins_stay_inside(list, seq![], depth + 1, middle, t);
                lemma_no_builtin_chain(w.log, middle.log, after.log);
            }
        }
    }
}

// ---------------------------------------------------------------------------
// Loading
// ---------------------------------------------------------------------------

/// A loaded script runs after that one read, one block deeper and without
/// arguments in scope, whatever the arguments where `load` stands. Further
/// arguments of `load` make no difference.
pub proof fn law_load_runs_the_file(
    name: Seq<char>,
    raw: Seq<Seq<char>>,
    block: Option<Seq<Statement>>,
    args: Seq<Seq<char>>,
    depth: nat,
    w: World,
    t: Seq<HostEvent>,
    text: Seq<char>,
    list: Seq<Statement>,
    e: int,
)
    requires
        depth <= MAX_DEPTH,
        command_word(name) == "load"@,
        raw.len() > 0,
        read_reply(t, w.log.len() as int) == Ok::<Seq<char>, Seq<char>>(text),
        script_of(text) == Parsed::Done(list, e),
    ensures
        statement_run(Statement::Command { name, args: raw, block }, args, depth, w, t)
            == block_run(
            list,
            seq![],
            depth + 1,
            asked(w, HostEvent::Read { path: resolved_args(raw, args)[0], reply: Ok(text) }),
            t,
        ),
{
    reveal_strlit("alias");
    reveal_strlit("load");
    assert("alias"@.len() != "load"@.len());
}

/// A script that does nothing but load a file runs the file after that one
/// read, without arguments in scope, whatever its own arguments are.
pub proof fn law_script_that_loads(
    name: Seq<char>,
    raw: Seq<Seq<char>>,
    block: Option<Seq<Statement>>,
    args: Seq<Seq<char>>,
    depth: nat,
    w: World,
    t: Seq<HostEvent>,
    text: Seq<char>,
    list: Seq<Statement>,
    e: int,
)
    requires
        depth <= MAX_DEPTH,
        command_word(name) == "load"@,
        raw.len() > 0,
        read_reply(t, w.log.len() as int) == Ok::<Seq<char>, Seq<char>>(text),
        script_of(text) == Parsed::Done(list, e),
    ensures
        block_run(seq![Statement::Command { name, args: raw, block }], args, depth, w, t)
            == block_run(
            list,
            seq![],
            depth + 1,
            asked(w, HostEvent::Read { path: resolved_args(raw, args)[0], reply: Ok(text) }),
            t,
        ),
{
    let statement = Statement::Command { name, args: raw, block };
    let script = seq![statement];
    law_load_runs_the_file(name, raw, block, args, depth, w, t, text, list, e);
    assert(script.drop_last() =~= seq![]);
    assert(statements_run(script.drop_last(), args, depth, w, t) == w);
    assert(statements_run(script, args, depth, w, t) == statement_run(
        statement,
        args,
        depth,
        w,
        t,
    ));
}

// ---------------------------------------------------------------------------
// What each statement does
// ---------------------------------------------------------------------------

/// Whatever the shape of its condition, an `if` runs its body exactly if the
/// condition is true, with the arguments of the scope that it stands in and
/// one block deeper. What it does besides is to ask for what the condition
/// asks for.
pub proof fn law_if_runs_its_body(
    cond: Cond,
    body: Seq<Statement>,
    args: Seq<Seq<char>>,
    depth: nat,
    w: World,
    t: Seq<HostEvent>,
)
    requires
        depth <= MAX_DEPTH,
    ensures
        ({
            let (value, log) = evaluated(cond, args, w.log, t);
            let middle = World { aliases: w.aliases, log };
            let after = statement_run(Statement::If { cond, body }, args, depth, w, t);
            &&& value ==> after == block_run(body, args, depth + 1, middle, t)
            &&& !value ==> after == middle
            &&& w.log.is_prefix_of(log)
            &&& forall|i: int| w.log.len() <= i < log.len() ==> (#[trigger] log[i]) is Compared
        }),
{
    law_condition_asks(cond, args, w.log, t);
}

/// A command in the body of an `if` gets the arguments of the scope that the
/// `if` stands in, whatever the condition.
pub proof fn law_if_body_sees_arguments(
    cond: Cond,
    name: Seq<char>,
    raw: Seq<Seq<char>>,
    args: Seq<Seq<char>>,
    depth: nat,
    w: World,
    t: Seq<HostEvent>,
)
    requires
        depth < MAX_DEPTH,
        evaluated(cond, args, w.log, t).0,
        !reserved(command_word(name)),
        !w.aliases.contains_key(command_word(name)),
    ensures
        ({
            let body = seq![Statement::Command { name, args: raw, block: None }];
            let given = raw.map_values(|a: Seq<char>| substituted(a, args));
            statement_run(Statement::If { cond, body }, args, depth, w, t) == (World {
                aliases: w.aliases,
                log: evaluated(cond, args, w.log, t).1.push(
                    HostEvent::Ran { name: command_word(name), args: given },
                ),
            })
        }),
{
    let statement = Statement::Command { name, args: raw, block: None };
    let log = evaluated(cond, args, w.log, t).1;
    let middle = World { aliases: w.aliases, log };
    law_if_runs_its_body(cond, seq![statement], args, depth, w, t);
    law_one_statement(statement, args, depth + 1, middle, t);
    law_command_reaches_host(name, raw, None, args, depth + 1, middle, t);
    assert(resolved_args(raw, args) =~= raw.map_values(|a: Seq<char>| substituted(a, args)));
}

/// The arguments of a command are its words in order, each with the `$N` in
/// it replaced by the arguments in scope.
pub proof fn law_arguments_resolved(raw: Seq<Seq<char>>, args: Seq<Seq<char>>, i: int)
    ensures
        resolved_args(raw, args).len() == raw.len(),
        0 <= i < raw.len() ==> resolved_args(raw, args)[i] == substituted(raw[i], args),
{
}

/// A command that is no builtin and no alias is handed to the host, once,
/// under the name that it means and with its arguments; a block behind it is
/// not looked at. The aliases stay as they are.
pub proof fn law_command_reaches_host(
    name: Seq<char>,
    raw: Seq<Seq<char>>,
    block: Option<Seq<Statement>>,
    args: Seq<Seq<char>>,
    depth: nat,
    w: World,
    t: Seq<HostEvent>,
)
    requires
        depth <= MAX_DEPTH,
        !reserved(command_word(name)),
        !w.aliases.contains_key(command_word(name)),
    ensures
        statement_run(Statement::Command { name, args: raw, block }, args, depth, w, t) == (World {
            aliases: w.aliases,
            log: w.log.push(
                HostEvent::Ran { name: command_word(name), args: resolved_args(raw, args) },
            ),
        }),
{
}

/// Calling an alias runs its body one block deeper, with the arguments of the
/// call in scope and none of those around it.
pub proof fn law_alias_call(
    name: Seq<char>,
    raw: Seq<Seq<char>>,
    block: Option<Seq<Statement>>,
    args: Seq<Seq<char>>,
    depth: nat,
    w: World,
    t: Seq<HostEvent>,
)
    requires
        depth <= MAX_DEPTH,
        !reserved(command_word(name)),
        w.aliases.contains_key(command_word(name)),
    ensures
        statement_run(Statement::Command { name, args: raw, block }, args, depth, w, t)
            == block_run(
            w.aliases[command_word(name)],
            resolved_args(raw, args),
            depth + 1,
            w,
            t,
        ),
{
}

/// `alias` with a name that is free to take and a block defines the alias
/// under that name in lower case, in place of what it meant before, leaves
/// all other aliases as they are, and says so. Further words are not looked
/// at.
pub proof fn law_alias_definition(
    word: Seq<char>,
    raw: Seq<Seq<char>>,
    body: Seq<Statement>,
    args: Seq<Seq<char>>,
    depth: nat,
    w: World,
    t: Seq<HostEvent>,
)
    requires
        depth <= MAX_DEPTH,
        command_word(word) == "alias"@,
        raw.len() > 0,
        !reserved(lower_text(substituted(raw[0], args))),
    ensures
        ({
            let name = lower_text(substituted(raw[0], args));
            statement_run(
                Statement::Command { name: word, args: raw, block: Some(body) },
                args,
                depth,
                w,
                t,
            ) == (World {
                aliases: w.aliases.insert(name, body),
                log: w.log.push(
                    HostEvent::Ran {
                        name: "echo"@,
                        args: seq!["Alias '"@ + name + "' defined."@],
                    },
                ),
            })
        }),
{
    assert(resolved_args(raw, args)[0] == substituted(raw[0], args));
}

/// `alias` without a name or without a block, and `load` without a path, only
/// report how they are used.
pub proof fn law_usage_reported(
    name: Seq<char>,
    raw: Seq<Seq<char>>,
    block: Option<Seq<Statement>>,
    args: Seq<Seq<char>>,
    depth: nat,
    w: World,
    t: Seq<HostEvent>,
)
    requires
        depth <= MAX_DEPTH,
    ensures
        ({
            let after = statement_run(
                Statement::Command { name, args: raw, block },
                args,
                depth,
                w,
                t,
            );
            let told = |message: Seq<char>|
                World { aliases: w.aliases, log: w.log.push(HostEvent::Reported { message }) };
            &&& command_word(name) == "alias"@ && (raw.len() == 0 || block is None) ==> after
                == told("usage: alias <name> { ...commands... }"@)
            &&& command_word(name) == "load"@ && raw.len() == 0 ==> after == told(
                "usage: load <file>"@,
            )
            &&& command_word(name) == "if"@ ==> after == told(
                "usage: if <condition> { ...commands... }"@,
            )
        }),
{
    reveal_strlit("alias");
    reveal_strlit("load");
    reveal_strlit("if");
    assert("alias"@.len() == 5 && "load"@.len() == 4 && "if"@.len() == 2);
}

/// A file that cannot be read, or that is no script, is reported with its
/// path and the reason, and nothing of it runs.
pub proof fn law_load_failures(
    name: Seq<char>,
    raw: Seq<Seq<char>>,
    block: Option<Seq<Statement>>,
    args: Seq<Seq<char>>,
    depth: nat,
    w: World,
    t: Seq<HostEvent>,
)
    requires
        depth <= MAX_DEPTH,
        command_word(name) == "load"@,
        raw.len() > 0,
    ensures
        ({
            let path = substituted(raw[0], args);
            let reply = read_reply(t, w.log.len() as int);
            let read = w.log.push(HostEvent::Read { path, reply });
            let after = statement_run(
                Statement::Command { name, args: raw, block },
                args,
                depth,
                w,
                t,
            );
            &&& reply matches Err(reason) ==> after == (World {
                aliases: w.aliases,
                log: read.push(
                    HostEvent::Reported { message: "could not read "@ + path + ": "@ + reason },
                ),
            })
            &&& reply matches Ok(text) ==> (script_of(text) matches Parsed::Fail(at, expected)
                ==> after == (World {
                aliases: w.aliases,
                log: read.push(
                    HostEvent::Reported {
                        message: "error parsing "@ + path + ": "@ + error_display(
                            text,
                            text.take(at),
                            expectation(expected),
                        ),
                    },
                ),
            }))
        }),
{
    reveal_strlit("alias");
    reveal_strlit("load");
    assert("alias"@.len() != "load"@.len());
    assert(resolved_args(raw, args)[0] == substituted(raw[0], args));
}

/// A block of one statement does what the statement does, and an empty block
/// does nothing, down to 32 blocks deep. One block deeper nothing runs, and
/// that is reported.
pub proof fn law_one_statement(
    statement: Statement,
    args: Seq<Seq<char>>,
    depth: nat,
    w: World,
    t: Seq<HostEvent>,
)
    requires
        depth <= 32,
    ensures
        block_run(seq![statement], args, depth, w, t) == statement_run(
            statement,
            args,
            depth,
            w,
            t,
        ),
        block_run(seq![], args, depth, w, t) == w,
        block_run(seq![statement], args, 33, w, t) == (World {
            aliases: w.aliases,
            log: w.log.push(
                HostEvent::Reported { message: "alias recursion limit exceeded"@ },
            ),
        }),
{
    let list = seq![statement];
    assert(list.drop_last() =~= seq![]);
    assert(statements_run(list.drop_last(), args, depth, w, t) == w);
    assert(statements_run(list, args, depth, w, t) == statement_run(
        statement,
        args,
        depth,
        w,
        t,
    ));
}

/// The statements of a block run in order, each where the one before left
/// off, whatever they are.
pub proof fn law_block_in_order(
    first: Seq<Statement>,
    second: Seq<Statement>,
    args: Seq<Seq<char>>,
    depth: nat,
    w: World,
    t: Seq<HostEvent>,
)
    requires
        depth <= 32,
    ensures
        block_run(first + second, args, depth, w, t) == block_run(
            second,
            args,
            depth,
            block_run(first, args, depth, w, t),
            t,
        ),
{
    law_statements_in_turn(first, second, args, depth, w, t);
}

/// A name without a leading `/` means its letters in lower case.
pub proof fn law_plain_names(name: Seq<char>)
    requires
        name.len() == 0 || name[0] != '/',
    ensures
        command_word(name) == lower_text(name),
{
    assert(run_end(name, 0, Class::Slash) == 0);
    assert(name.skip(0) =~= name);
}

/// The names that are taken are `alias`, `if` and `load`, and no others.
pub proof fn law_reserved_words(name: Seq<char>)
    ensures
        reserved(name) <==> {
            ||| name == seq!['a', 'l', 'i', 'a', 's']
            ||| name == seq!['i', 'f']
            ||| name == seq!['l', 'o', 'a', 'd']
        },
{
    reveal_strlit("alias");
    reveal_strlit("if");
    reveal_strlit("load");
    assert("alias"@ =~= seq!['a', 'l', 'i', 'a', 's']);
    assert("if"@ =~= seq!['i', 'f']);
    assert("load"@ =~= seq!['l', 'o', 'a', 'd']);
}

/// A transcript's answer to a question is the one that stands at its place.
pub proof fn law_replies(t: Seq<HostEvent>, i: int)
    ensures
        t[i] matches HostEvent::Read { path, reply } ==> read_reply(t, i) == reply,
        t[i] matches HostEvent::Compared { left, right, order } ==> number_reply(t, i) == order,
{
}

} // verus!
