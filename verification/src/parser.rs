//! Reading scripts: from text to syntax tree.

use vstd::prelude::*;

use crate::ast::{block_of, CmpOp, Cond, Expr, Statement, Stmt};
use crate::grammar::{
    arguments_from, block_at, both_at, both_tail, comparison_at, condition_at, condition_tail,
    lemma_arguments_from, lemma_block_at, lemma_both_at, lemma_comparison_at, lemma_condition_at,
    lemma_statement_at, lemma_statements_from, lemma_word_end, means_if, operand_end, operator_at,
    operator_len, pair_at, prepend, quote_end, script_of, statement_at, statements_from, word_end,
    Expected, Parsed,
};
use crate::number::decimal;
use crate::quote::unquote_between;
use crate::text::{chars_of, copy_between, lowercase, skip_run, string_between, Class};

verus! {

/// Where reading stopped, and what was expected there.
struct Stuck {
    at: usize,
    expected: Expected,
}

/// The outcome of reading, as the grammar states it, for a part whose value
/// is `value`.
spec fn outcome<T, V>(r: Result<(T, usize), Stuck>, value: spec_fn(T) -> V) -> Parsed<V> {
    match r {
        Ok((t, e)) => Parsed::Done(value(t), e as int),
        Err(f) => Parsed::Fail(f.at as int, f.expected),
    }
}

spec fn cond_value() -> spec_fn(Expr) -> Cond {
    |e: Expr| e@
}

spec fn statement_value() -> spec_fn(Stmt) -> Statement {
    |s: Stmt| s@
}

spec fn block_value() -> spec_fn(Vec<Stmt>) -> Seq<Statement> {
    |b: Vec<Stmt>| block_of(b@)
}

spec fn list_value() -> spec_fn(Vec<String>) -> Seq<Seq<char>> {
    |v: Vec<String>| v.deep_view()
}

// ---------------------------------------------------------------------------
// Words
// ---------------------------------------------------------------------------

fn is_pair_at(v: &Vec<char>, p: usize, a: char, b: char) -> (r: bool)
    ensures
        r == pair_at(v@, p as int, a, b),
        r ==> p + 2 <= v.len(),
{
    p < v.len() && v.len() - p > 1 && v[p] == a && v[p + 1] == b
}

fn read_operator(v: &Vec<char>, p: usize) -> (r: Option<CmpOp>)
    ensures
        r == operator_at(v@, p as int),
        r matches Some(op) ==> p + operator_len(op) <= v.len(),
{
    if is_pair_at(v, p, '=', '=') {
        Some(CmpOp::Eq)
    } else if is_pair_at(v, p, '!', '=') {
        Some(CmpOp::Ne)
    } else if is_pair_at(v, p, '<', '=') {
        Some(CmpOp::Le)
    } else if is_pair_at(v, p, '>', '=') {
        Some(CmpOp::Ge)
    } else if p < v.len() && v[p] == '<' {
        Some(CmpOp::Lt)
    } else if p < v.len() && v[p] == '>' {
        Some(CmpOp::Gt)
    } else {
        None
    }
}

fn read_operand_end(v: &Vec<char>, p: usize) -> (r: usize)
    requires
        p <= v@.len(),
    ensures
        r == operand_end(v@, p as int),
{
    let mut i: usize = p;
    while i < v.len() && Class::Bare.has(v[i]) && read_operator(v, i).is_none() && !is_pair_at(
        v,
        i,
        '&',
        '&',
    ) && !is_pair_at(v, i, '|', '|')
        invariant
            p <= i <= v@.len(),
            operand_end(v@, p as int) == operand_end(v@, i as int),
        decreases v@.len() - i,
    {
        i = i + 1;
    }
    i
}

fn read_quote_end(v: &Vec<char>, p: usize) -> (r: Option<usize>)
    requires
        p <= v@.len(),
    ensures
        r matches Some(e) ==> quote_end(v@, p as int) == Some(e as int),
        r is None ==> quote_end(v@, p as int) is None,
{
    let mut i: usize = p;
    while i < v.len()
        invariant
            p <= i <= v@.len(),
            quote_end(v@, p as int) == quote_end(v@, i as int),
        decreases v@.len() - i,
    {
        if v[i] == '"' {
            return Some(i + 1);
        }
        if v[i] == '\\' {
            if v.len() - i < 2 {
                assert(quote_end(v@, i + 2) is None);
                return None;
            }
            i = i + 2;
        } else {
            i = i + 1;
        }
    }
    None
}

fn read_word_end(v: &Vec<char>, p: usize, in_condition: bool) -> (r: Option<usize>)
    requires
        p <= v@.len(),
    ensures
        r matches Some(e) ==> word_end(v@, p as int, in_condition) == Some(e as int) && p < e
            <= v@.len(),
        r is None ==> word_end(v@, p as int, in_condition) is None,
{
    proof {
        lemma_word_end(v@, p as int, in_condition);
    }
    if p < v.len() && v[p] == '"' {
        return read_quote_end(v, p + 1);
    }
    let e: usize = if in_condition {
        read_operand_end(v, p)
    } else {
        skip_run(v.as_slice(), p, Class::Bare)
    };
    if e > p {
        Some(e)
    } else {
        None
    }
}

// ---------------------------------------------------------------------------
// Arguments and conditions
// ---------------------------------------------------------------------------

fn read_arguments(v: &Vec<char>, p: usize) -> (r: Result<(Vec<String>, usize), Stuck>)
    requires
        p <= v@.len(),
    ensures
        outcome(r, list_value()) == arguments_from(v@, p as int),
        r matches Ok((_, e)) ==> p <= e <= v@.len(),
{
    proof {
        lemma_arguments_from(v@, p as int);
    }
    let mut out: Vec<String> = Vec::new();
    let mut i: usize = p;
    assert(arguments_from(v@, p as int) == prepend(
        out.deep_view(),
        arguments_from(v@, i as int),
    )) by {
        if let Parsed::Done(list, _) = arguments_from(v@, p as int) {
            assert(out.deep_view() + list =~= list);
        }
    }
    loop
        invariant
            p <= i <= v@.len(),
            arguments_from(v@, p as int) == prepend(
                out.deep_view(),
                arguments_from(v@, i as int),
            ),
        decreases v@.len() - i,
    {
        let q = skip_run(v.as_slice(), i, Class::Blank);
        if !(q < v.len() && (v[q] == '"' || Class::Bare.has(v[q]))) {
            assert(out.deep_view() + Seq::<Seq<char>>::empty() =~= out.deep_view());
            return Ok((out, q));
        }
        match read_word_end(v, q, false) {
            None => {
                return Err(Stuck { at: q, expected: Expected::Argument });
            },
            Some(e) => {
                let ghost before = out.deep_view();
                let word = unquote_between(v, q, e);
                out.push(word);
                proof {
                    assert(out.deep_view() =~= before.push(word@));
                    if let Parsed::Done(list, _) = arguments_from(v@, e as int) {
                        assert(before + (seq![word@] + list) =~= out.deep_view() + list);
                    }
                }
                i = e;
            },
        }
    }
}

fn read_comparison(v: &Vec<char>, p: usize) -> (r: Result<(Expr, usize), Stuck>)
    requires
        p <= v@.len(),
    ensures
        outcome(r, cond_value()) == comparison_at(v@, p as int),
        r matches Ok((_, e)) ==> p < e <= v@.len(),
{
    proof {
        lemma_comparison_at(v@, p as int);
    }
    match read_word_end(v, p, true) {
        None => Err(Stuck { at: p, expected: Expected::Operand }),
        Some(e) => {
            let left = unquote_between(v, p, e);
            let q = skip_run(v.as_slice(), e, Class::Blank);
            match read_operator(v, q) {
                None => Ok((Expr::Atom(left), e)),
                Some(op) => {
                    let len: usize = match op {
                        CmpOp::Lt | CmpOp::Gt => 1,
                        _ => 2,
                    };
                    let s = skip_run(v.as_slice(), q + len, Class::Blank);
                    match read_word_end(v, s, true) {
                        None => Err(Stuck { at: s, expected: Expected::Operand }),
                        Some(f) => Ok((Expr::Cmp(left, op, unquote_between(v, s, f)), f)),
                    }
                },
            }
        },
    }
}

fn read_both(v: &Vec<char>, p: usize) -> (r: Result<(Expr, usize), Stuck>)
    requires
        p <= v@.len(),
    ensures
        outcome(r, cond_value()) == both_at(v@, p as int),
        r matches Ok((_, e)) ==> p < e <= v@.len(),
{
    proof {
        lemma_both_at(v@, p as int);
    }
    match read_comparison(v, p) {
        Err(f) => Err(f),
        Ok((first, e)) => {
            let mut left = first;
            let mut i: usize = e;
            loop
                invariant
                    p < i <= v@.len(),
                    both_at(v@, p as int) == both_tail(v@, left@, i as int),
                decreases v@.len() - i,
            {
                let q = skip_run(v.as_slice(), i, Class::Blank);
                if !is_pair_at(v, q, '&', '&') {
                    return Ok((left, i));
                }
                let s = skip_run(v.as_slice(), q + 2, Class::Blank);
                match read_comparison(v, s) {
                    Err(f) => {
                        return Err(f);
                    },
                    Ok((right, e)) => {
                        left = Expr::And(Box::new(left), Box::new(right));
                        i = e;
                    },
                }
            }
        },
    }
}

fn read_condition(v: &Vec<char>, p: usize) -> (r: Result<(Expr, usize), Stuck>)
    requires
        p <= v@.len(),
    ensures
        outcome(r, cond_value()) == condition_at(v@, p as int),
        r matches Ok((_, e)) ==> p < e <= v@.len(),
{
    proof {
        lemma_condition_at(v@, p as int);
    }
    match read_both(v, p) {
        Err(f) => Err(f),
        Ok((first, e)) => {
            let mut left = first;
            let mut i: usize = e;
            loop
                invariant
                    p < i <= v@.len(),
                    condition_at(v@, p as int) == condition_tail(v@, left@, i as int),
                decreases v@.len() - i,
            {
                let q = skip_run(v.as_slice(), i, Class::Blank);
                if !is_pair_at(v, q, '|', '|') {
                    return Ok((left, i));
                }
                let s = skip_run(v.as_slice(), q + 2, Class::Blank);
                match read_both(v, s) {
                    Err(f) => {
                        return Err(f);
                    },
                    Ok((right, e)) => {
                        left = Expr::Or(Box::new(left), Box::new(right));
                        i = e;
                    },
                }
            }
        },
    }
}

// ---------------------------------------------------------------------------
// Statements
// ---------------------------------------------------------------------------

/// Whether the word `from..to` makes its statement an `if` statement.
fn is_if_word(v: &Vec<char>, from: usize, to: usize) -> (r: bool)
    requires
        from <= to <= v@.len(),
    ensures
        r == means_if(v@.subrange(from as int, to as int)),
{
    let word = copy_between(v.as_slice(), from, to);
    let start = skip_run(word.as_slice(), 0, Class::Slash);
    let rest = string_between(word.as_slice(), start, word.len());
    assert(word@.subrange(start as int, word@.len() as int) =~= word@.skip(start as int));
    let low = chars_of(lowercase(rest.as_str()).as_str());
    let r = low.len() == 2 && low[0] == 'i' && low[1] == 'f';
    assert(r ==> low@ =~= seq!['i', 'f']);
    r
}

fn read_statement(v: &Vec<char>, p: usize) -> (r: Result<(Stmt, usize), Stuck>)
    requires
        p <= v@.len(),
    ensures
        outcome(r, statement_value()) == statement_at(v@, p as int),
        r matches Ok((_, e)) ==> p < e <= v@.len(),
    decreases v@.len() - p, 1int,
{
    proof {
        lemma_statement_at(v@, p as int);
    }
    let e = skip_run(v.as_slice(), p, Class::Bare);
    if e == p {
        return Err(Stuck { at: p, expected: Expected::Statement });
    }
    if is_if_word(v, p, e) {
        let c = skip_run(v.as_slice(), e, Class::Blank);
        match read_condition(v, c) {
            Err(f) => Err(f),
            Ok((cond, q)) => {
                let b = skip_run(v.as_slice(), q, Class::Blank);
                match read_block(v, b) {
                    Err(f) => Err(f),
                    Ok((body, r)) => Ok((Stmt::If { cond, body }, r)),
                }
            },
        }
    } else {
        let name = string_between(v.as_slice(), p, e);
        match read_arguments(v, e) {
            Err(f) => Err(f),
            Ok((args, q)) => if q < v.len() && v[q] == '{' {
                match read_block(v, q) {
                    Err(f) => Err(f),
                    Ok((body, r)) => Ok((Stmt::Command { name, args, block: Some(body) }, r)),
                }
            } else {
                Ok((Stmt::Command { name, args, block: None }, q))
            },
        }
    }
}

fn read_block(v: &Vec<char>, p: usize) -> (r: Result<(Vec<Stmt>, usize), Stuck>)
    requires
        p <= v@.len(),
    ensures
        outcome(r, block_value()) == block_at(v@, p as int),
        r matches Ok((_, e)) ==> p < e <= v@.len(),
    decreases v@.len() - p, 0int,
{
    proof {
        lemma_block_at(v@, p as int);
    }
    if p < v.len() && v[p] == '{' {
        match read_statements(v, p + 1) {
            Err(f) => Err(f),
            Ok((list, q)) => if q < v.len() && v[q] == '}' {
                Ok((list, q + 1))
            } else {
                Err(Stuck { at: q, expected: Expected::BlockEnd })
            },
        }
    } else {
        Err(Stuck { at: p, expected: Expected::Block })
    }
}

fn read_statements(v: &Vec<char>, p: usize) -> (r: Result<(Vec<Stmt>, usize), Stuck>)
    requires
        p <= v@.len(),
    ensures
        outcome(r, block_value()) == statements_from(v@, p as int),
        r matches Ok((_, e)) ==> p <= e <= v@.len(),
    decreases v@.len() - p, 2int,
{
    proof {
        lemma_statements_from(v@, p as int);
    }
    let mut out: Vec<Stmt> = Vec::new();
    let mut i: usize = p;
    assert(statements_from(v@, p as int) == prepend(
        block_of(out@),
        statements_from(v@, i as int),
    )) by {
        if let Parsed::Done(list, _) = statements_from(v@, p as int) {
            assert(block_of(out@) + list =~= list);
        }
    }
    loop
        invariant
            p <= i <= v@.len(),
            statements_from(v@, p as int) == prepend(
                block_of(out@),
                statements_from(v@, i as int),
            ),
        decreases v@.len() - i,
    {
        let q = skip_run(v.as_slice(), i, Class::Gap);
        if !(q < v.len() && v[q] != '}') {
            assert(block_of(out@) + Seq::<Statement>::empty() =~= block_of(out@));
            return Ok((out, q));
        }
        match read_statement(v, q) {
            Err(f) => {
                return Err(f);
            },
            Ok((statement, e)) => {
                let t = skip_run(v.as_slice(), e, Class::Blank);
                let ghost before = block_of(out@);
                out.push(statement);
                assert(block_of(out@) =~= before + seq![statement@]);
                if t < v.len() && (v[t] == '\n' || v[t] == '\r' || v[t] == ';') {
                    proof {
                        if let Parsed::Done(list, _) = statements_from(v@, t as int) {
                            assert(before + (seq![statement@] + list) =~= block_of(out@) + list);
                        }
                    }
                    i = t;
                } else {
                    return Ok((out, t));
                }
            },
        }
    }
}

// ---------------------------------------------------------------------------
// Whole scripts
// ---------------------------------------------------------------------------

/// A parsed script, which [`crate::interp::Interpreter::exec`] can run.
pub struct Script(Vec<Stmt>);

impl View for Script {
    type V = Seq<Statement>;

    closed spec fn view(&self) -> Seq<Statement> {
        block_of(self.0@)
    }
}

impl Script {
    /// The statements of the script.
    pub fn statements(&self) -> (r: &Vec<Stmt>)
        ensures
            block_of(r@) == self@,
    {
        &self.0
    }
}

/// What the message of a failed parse says after the place.
pub open spec fn expectation(expected: Expected) -> Seq<char> {
    match expected {
        Expected::Statement => "expected statement"@,
        Expected::Argument => "expected argument"@,
        Expected::Operand => "expected operand"@,
        Expected::Block => "expected block"@,
        Expected::BlockEnd => "expected end of statement or '}'"@,
        Expected::ScriptEnd => "expected end of statement or script"@,
    }
}

impl Expected {
    /// What the message of a failed parse says after the place.
    pub fn message(self) -> (r: &'static str)
        ensures
            r@ == expectation(self),
    {
        match self {
            Expected::Statement => "expected statement",
            Expected::Argument => "expected argument",
            Expected::Operand => "expected operand",
            Expected::Block => "expected block",
            Expected::BlockEnd => "expected end of statement or '}'",
            Expected::ScriptEnd => "expected end of statement or script",
        }
    }
}

/// The number of the line that a text ends in, counted from one.
pub open spec fn line_number(s: Seq<char>) -> nat
    decreases s.len(),
{
    if s.len() == 0 {
        1
    } else if s.last() == '\n' {
        line_number(s.drop_last()) + 1
    } else {
        line_number(s.drop_last())
    }
}

/// The line that a text ends in, as far as the text goes.
pub open spec fn last_line(s: Seq<char>) -> Seq<char>
    decreases s.len(),
{
    if s.len() == 0 || s.last() == '\n' {
        seq![]
    } else {
        last_line(s.drop_last()).push(s.last())
    }
}

/// As much blank space as `line` is wide.
pub open spec fn margin_under(line: Seq<char>) -> Seq<char> {
    line.map_values(
        |c: char|
            if c == '\t' {
                '\t'
            } else {
                ' '
            },
    )
}

/// An error that is shown with a line of the script, and with a caret behind
/// `margin` below it. The place is that at which `before` ends.
pub open spec fn error_layout(
    before: Seq<char>,
    line: Seq<char>,
    margin: Seq<char>,
    message: Seq<char>,
) -> Seq<char> {
    let number = decimal(line_number(before));
    let column = decimal(last_line(before).len() + 1);
    let pad = Seq::new(number.len(), |i: int| ' ');
    pad + "--> "@ + number + ":"@ + column + "\n"@
        + pad + " |\n"@
        + number + " | "@ + line + "\n"@
        + pad + " | "@ + margin + "^---\n"@
        + pad + " |\n"@
        + pad + " = "@ + message
}

/// Whether `shown` gives the line and column at which `before` ends, and the
/// message. The line that is shown begins with what `before` has of it, and
/// the caret stands below the place; of a line with a carriage return before
/// the place only the layout is said.
pub open spec fn shows_place(shown: Seq<char>, before: Seq<char>, message: Seq<char>) -> bool {
    exists|line: Seq<char>, margin: Seq<char>|
        shown == #[trigger] error_layout(before, line, margin, message) && (!last_line(
            before,
        ).contains('\r') ==> last_line(before).is_prefix_of(line) && margin == margin_under(
            last_line(before),
        ))
}

/// The text in which `pest` shows the error `message` of the script `text` at
/// the place behind its beginning `before`: the line and column, the line
/// itself, a caret under the place, and the message.
pub uninterp spec fn error_display(
    text: Seq<char>,
    before: Seq<char>,
    message: Seq<char>,
) -> Seq<char>;

/// `pest::error::Error::new_from_pos`, and the error's `Display`. They are
/// claimed to depend on nothing but the text, the position and the message,
/// and to show the place as [`shows_place`] says. How much of the line they
/// show behind the place is left unsaid. `pest::Position::new` refuses a
/// position that is not between two characters; the end of a beginning of the
/// text always is.
#[verifier::external_body]
fn show_error(text: &str, before: &str, message: &str) -> (r: String)
    requires
        before@.is_prefix_of(text@),
    ensures
        r@ == error_display(text@, before@, message@),
        shows_place(r@, before@, message@),
{
    let variant = pest::error::ErrorVariant::<u8>::CustomError { message: message.to_string() };
    let position = pest::Position::new(text, before.len()).unwrap();
    pest::error::Error::new_from_pos(variant, position).to_string()
}

/// Parses a whole script -- one input line, or a whole file's contents --
/// into something [`crate::interp::Interpreter::exec`] can run. On failure
/// the message gives the line and column and a caret that points at the
/// problem.
pub fn parse_script(text: &str) -> (r: Result<Script, String>)
    ensures
        match script_of(text@) {
            Parsed::Done(list, _) => r matches Ok(script) && script@ == list,
            Parsed::Fail(at, expected) => r matches Err(message) && message@ == error_display(
                text@,
                text@.take(at),
                expectation(expected),
            ) && shows_place(message@, text@.take(at), expectation(expected)),
        },
{
    let v = chars_of(text);
    proof {
        lemma_statements_from(v@, 0);
    }
    let stuck = match read_statements(&v, 0) {
        Ok((list, e)) => {
            if e == v.len() {
                return Ok(Script(list));
            }
            Stuck { at: e, expected: Expected::ScriptEnd }
        },
        Err(f) => f,
    };
    let before = string_between(v.as_slice(), 0, stuck.at);
    assert(before@ =~= text@.take(stuck.at as int));
    Err(show_error(text, before.as_str(), stuck.expected.message()))
}

} // verus!
