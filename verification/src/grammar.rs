//! The grammar of scripts.
//!
//! ```text
//! script     = statements end
//! statements = gap* (statement blank* (break gap* statement blank*)*)? gap*
//! statement  = if_word condition block | name argument* block?
//! block      = "{" statements "}"
//! condition  = both ("||" both)*
//! both       = comparison ("&&" comparison)*
//! comparison = operand (("==" | "!=" | "<=" | ">=" | "<" | ">") operand)?
//! argument   = quoted | bare
//! operand    = quoted | bare, up to the next operator
//! ```
//!
//! Spaces and tabs may stand between any two of these. A line break or a `;`
//! ends a statement. A quoted word may hold anything; in it a backslash keeps
//! the character after it from ending the word.

use vstd::prelude::*;

use crate::ast::{CmpOp, Cond, Statement};
use crate::quote::unquoted;
use crate::text::{in_class, is_break, lemma_run_end, lower_text, run_end, Class};

verus! {

/// What a script was found to lack.
#[derive(Debug, Clone, Copy, PartialEq, Eq, Structural)]
pub enum Expected {
    Statement,
    Argument,
    Operand,
    Block,
    BlockEnd,
    ScriptEnd,
}

/// The outcome of reading one part of a script: the part, with the position
/// behind it; or the position at which reading stopped, with what was
/// expected there.
pub enum Parsed<T> {
    Done(T, int),
    Fail(int, Expected),
}

// ---------------------------------------------------------------------------
// Words
// ---------------------------------------------------------------------------

/// Whether `a` and `b` stand at `p`, one after the other.
pub open spec fn pair_at(s: Seq<char>, p: int, a: char, b: char) -> bool {
    0 <= p && p + 1 < s.len() && s[p] == a && s[p + 1] == b
}

/// The comparison operator that stands at `p`.
pub open spec fn operator_at(s: Seq<char>, p: int) -> Option<CmpOp> {
    if pair_at(s, p, '=', '=') {
        Some(CmpOp::Eq)
    } else if pair_at(s, p, '!', '=') {
        Some(CmpOp::Ne)
    } else if pair_at(s, p, '<', '=') {
        Some(CmpOp::Le)
    } else if pair_at(s, p, '>', '=') {
        Some(CmpOp::Ge)
    } else if 0 <= p < s.len() && s[p] == '<' {
        Some(CmpOp::Lt)
    } else if 0 <= p < s.len() && s[p] == '>' {
        Some(CmpOp::Gt)
    } else {
        None
    }
}

/// The number of characters of an operator.
pub open spec fn operator_len(op: CmpOp) -> int {
    match op {
        CmpOp::Lt | CmpOp::Gt => 1,
        _ => 2,
    }
}

/// Whether an unquoted operand goes on at `p`.
pub open spec fn operand_goes_on(s: Seq<char>, p: int) -> bool {
    &&& 0 <= p < s.len()
    &&& in_class(Class::Bare, s[p])
    &&& operator_at(s, p) is None
    &&& !pair_at(s, p, '&', '&')
    &&& !pair_at(s, p, '|', '|')
}

/// Where the unquoted operand that starts at `p` ends.
pub open spec fn operand_end(s: Seq<char>, p: int) -> int
    decreases s.len() - p,
{
    if operand_goes_on(s, p) {
        operand_end(s, p + 1)
    } else {
        p
    }
}

/// Where the quoted word that is open at `p` ends: behind the first quote
/// that no backslash protects.
pub open spec fn quote_end(s: Seq<char>, p: int) -> Option<int>
    decreases s.len() + 1 - p,
{
    if p < 0 || p >= s.len() {
        None
    } else if s[p] == '"' {
        Some(p + 1)
    } else if s[p] == '\\' {
        quote_end(s, p + 2)
    } else {
        quote_end(s, p + 1)
    }
}

/// Where the word that starts at `p` ends, if one does. In a condition an
/// unquoted word ends before an operator.
pub open spec fn word_end(s: Seq<char>, p: int, in_condition: bool) -> Option<int> {
    if 0 <= p < s.len() && s[p] == '"' {
        quote_end(s, p + 1)
    } else {
        let e = if in_condition {
            operand_end(s, p)
        } else {
            run_end(s, p, Class::Bare)
        };
        if e > p {
            Some(e)
        } else {
            None
        }
    }
}

proof fn lemma_operand_end(s: Seq<char>, p: int)
    requires
        0 <= p <= s.len(),
    ensures
        p <= operand_end(s, p) <= s.len(),
    decreases s.len() - p,
{
    if operand_goes_on(s, p) {
        lemma_operand_end(s, p + 1);
    }
}

proof fn lemma_quote_end(s: Seq<char>, p: int)
    requires
        0 <= p,
    ensures
        quote_end(s, p) matches Some(e) ==> p < e <= s.len(),
    decreases s.len() + 1 - p,
{
    if p < s.len() && s[p] != '"' {
        lemma_quote_end(s, if s[p] == '\\' {
            p + 2
        } else {
            p + 1
        });
    }
}

/// A word is not empty and ends within the text.
pub proof fn lemma_word_end(s: Seq<char>, p: int, in_condition: bool)
    requires
        0 <= p <= s.len(),
    ensures
        word_end(s, p, in_condition) matches Some(e) ==> p < e <= s.len(),
{
    lemma_operand_end(s, p);
    lemma_run_end(s, p, Class::Bare);
    lemma_quote_end(s, p + 1);
}

// ---------------------------------------------------------------------------
// Arguments
// ---------------------------------------------------------------------------

/// `head` put in front of a list that was read.
pub open spec fn prepend<T>(head: Seq<T>, tail: Parsed<Seq<T>>) -> Parsed<Seq<T>> {
    match tail {
        Parsed::Done(list, e) => Parsed::Done(head + list, e),
        Parsed::Fail(at, expected) => Parsed::Fail(at, expected),
    }
}

/// Whether a word starts at `p`.
pub open spec fn word_starts(s: Seq<char>, p: int) -> bool {
    0 <= p < s.len() && (s[p] == '"' || in_class(Class::Bare, s[p]))
}

/// The arguments from `p` on.
pub open spec fn arguments_from(s: Seq<char>, p: int) -> Parsed<Seq<Seq<char>>>
    decreases s.len() - p,
{
    let q = run_end(s, p, Class::Blank);
    if 0 <= p <= s.len() && word_starts(s, q) {
        match word_end(s, q, false) {
            Some(e) => {
                proof {
                    lemma_run_end(s, p, Class::Blank);
                    lemma_word_end(s, q, false);
                }
                prepend(seq![unquoted(s.subrange(q, e))], arguments_from(s, e))
            },
            None => Parsed::Fail(q, Expected::Argument),
        }
    } else {
        Parsed::Done(seq![], q)
    }
}

// ---------------------------------------------------------------------------
// Conditions
// ---------------------------------------------------------------------------

/// The comparison, or the lone operand, at `p`.
pub open spec fn comparison_at(s: Seq<char>, p: int) -> Parsed<Cond> {
    match word_end(s, p, true) {
        None => Parsed::Fail(p, Expected::Operand),
        Some(e) => {
            let left = unquoted(s.subrange(p, e));
            let q = run_end(s, e, Class::Blank);
            match operator_at(s, q) {
                None => Parsed::Done(Cond::Atom(left), e),
                Some(op) => {
                    let r = run_end(s, q + operator_len(op), Class::Blank);
                    match word_end(s, r, true) {
                        None => Parsed::Fail(r, Expected::Operand),
                        Some(f) => Parsed::Done(
                            Cond::Cmp(left, op, unquoted(s.subrange(r, f))),
                            f,
                        ),
                    }
                },
            }
        },
    }
}

pub proof fn lemma_comparison_at(s: Seq<char>, p: int)
    requires
        0 <= p <= s.len(),
    ensures
        comparison_at(s, p) matches Parsed::Done(_, e) ==> p < e <= s.len(),
        comparison_at(s, p) matches Parsed::Fail(at, _) ==> p <= at <= s.len(),
{
    lemma_word_end(s, p, true);
    if let Some(e) = word_end(s, p, true) {
        let q = run_end(s, e, Class::Blank);
        lemma_run_end(s, e, Class::Blank);
        if let Some(op) = operator_at(s, q) {
            lemma_run_end(s, q + operator_len(op), Class::Blank);
            lemma_word_end(s, run_end(s, q + operator_len(op), Class::Blank), true);
        }
    }
}

/// `left`, joined by `&&` to the comparisons that follow from `p` on.
pub open spec fn both_tail(s: Seq<char>, left: Cond, p: int) -> Parsed<Cond>
    decreases s.len() - p,
{
    let q = run_end(s, p, Class::Blank);
    if 0 <= p <= s.len() && pair_at(s, q, '&', '&') {
        let r = run_end(s, q + 2, Class::Blank);
        match comparison_at(s, r) {
            Parsed::Done(right, e) => {
                proof {
                    lemma_run_end(s, p, Class::Blank);
                    lemma_run_end(s, q + 2, Class::Blank);
                    lemma_comparison_at(s, r);
                }
                both_tail(s, Cond::And(Box::new(left), Box::new(right)), e)
            },
            Parsed::Fail(at, expected) => Parsed::Fail(at, expected),
        }
    } else {
        Parsed::Done(left, p)
    }
}

/// The comparisons joined by `&&` at `p`.
pub open spec fn both_at(s: Seq<char>, p: int) -> Parsed<Cond> {
    match comparison_at(s, p) {
        Parsed::Done(left, e) => both_tail(s, left, e),
        Parsed::Fail(at, expected) => Parsed::Fail(at, expected),
    }
}

proof fn lemma_both_tail(s: Seq<char>, left: Cond, p: int)
    requires
        0 <= p <= s.len(),
    ensures
        both_tail(s, left, p) matches Parsed::Done(_, e) ==> p <= e <= s.len(),
        both_tail(s, left, p) matches Parsed::Fail(at, _) ==> p <= at <= s.len(),
    decreases s.len() - p,
{
    let q = run_end(s, p, Class::Blank);
    lemma_run_end(s, p, Class::Blank);
    if pair_at(s, q, '&', '&') {
        let r = run_end(s, q + 2, Class::Blank);
        lemma_run_end(s, q + 2, Class::Blank);
        lemma_comparison_at(s, r);
        if let Parsed::Done(right, e) = comparison_at(s, r) {
            lemma_both_tail(s, Cond::And(Box::new(left), Box::new(right)), e);
        }
    }
}

pub proof fn lemma_both_at(s: Seq<char>, p: int)
    requires
        0 <= p <= s.len(),
    ensures
        both_at(s, p) matches Parsed::Done(_, e) ==> p < e <= s.len(),
        both_at(s, p) matches Parsed::Fail(at, _) ==> p <= at <= s.len(),
{
    lemma_comparison_at(s, p);
    if let Parsed::Done(left, e) = comparison_at(s, p) {
        lemma_both_tail(s, left, e);
    }
}

/// `left`, joined by `||` to what follows from `p` on.
pub open spec fn condition_tail(s: Seq<char>, left: Cond, p: int) -> Parsed<Cond>
    decreases s.len() - p,
{
    let q = run_end(s, p, Class::Blank);
    if 0 <= p <= s.len() && pair_at(s, q, '|', '|') {
        let r = run_end(s, q + 2, Class::Blank);
        match both_at(s, r) {
            Parsed::Done(right, e) => {
                proof {
                    lemma_run_end(s, p, Class::Blank);
                    lemma_run_end(s, q + 2, Class::Blank);
                    lemma_both_at(s, r);
                }
                condition_tail(s, Cond::Or(Box::new(left), Box::new(right)), e)
            },
            Parsed::Fail(at, expected) => Parsed::Fail(at, expected),
        }
    } else {
        Parsed::Done(left, p)
    }
}

/// The condition at `p`.
pub open spec fn condition_at(s: Seq<char>, p: int) -> Parsed<Cond> {
    match both_at(s, p) {
        Parsed::Done(left, e) => condition_tail(s, left, e),
        Parsed::Fail(at, expected) => Parsed::Fail(at, expected),
    }
}

proof fn lemma_condition_tail(s: Seq<char>, left: Cond, p: int)
    requires
        0 <= p <= s.len(),
    ensures
        condition_tail(s, left, p) matches Parsed::Done(_, e) ==> p <= e <= s.len(),
        condition_tail(s, left, p) matches Parsed::Fail(at, _) ==> p <= at <= s.len(),
    decreases s.len() - p,
{
    let q = run_end(s, p, Class::Blank);
    lemma_run_end(s, p, Class::Blank);
    if pair_at(s, q, '|', '|') {
        let r = run_end(s, q + 2, Class::Blank);
        lemma_run_end(s, q + 2, Class::Blank);
        lemma_both_at(s, r);
        if let Parsed::Done(right, e) = both_at(s, r) {
            lemma_condition_tail(s, Cond::Or(Box::new(left), Box::new(right)), e);
        }
    }
}

pub proof fn lemma_condition_at(s: Seq<char>, p: int)
    requires
        0 <= p <= s.len(),
    ensures
        condition_at(s, p) matches Parsed::Done(_, e) ==> p < e <= s.len(),
        condition_at(s, p) matches Parsed::Fail(at, _) ==> p <= at <= s.len(),
{
    lemma_both_at(s, p);
    if let Parsed::Done(left, e) = both_at(s, p) {
        lemma_condition_tail(s, left, e);
    }
}

// ---------------------------------------------------------------------------
// Statements
// ---------------------------------------------------------------------------

/// What a command name means: leading slashes and the case of ASCII letters
/// make no difference.
pub open spec fn command_word(name: Seq<char>) -> Seq<char> {
    lower_text(name.skip(run_end(name, 0, Class::Slash)))
}

/// Whether a statement's first word makes it an `if` statement.
pub open spec fn means_if(word: Seq<char>) -> bool {
    command_word(word) == seq!['i', 'f']
}

/// The statement at `p`.
pub open spec fn statement_at(s: Seq<char>, p: int) -> Parsed<Statement>
    decreases s.len() - p, 1int,
{
    let e = run_end(s, p, Class::Bare);
    if !(0 <= p < e <= s.len()) {
        Parsed::Fail(p, Expected::Statement)
    } else if means_if(s.subrange(p, e)) {
        let c = run_end(s, e, Class::Blank);
        match condition_at(s, c) {
            Parsed::Fail(at, expected) => Parsed::Fail(at, expected),
            Parsed::Done(cond, q) => {
                proof {
                    lemma_run_end(s, e, Class::Blank);
                    lemma_condition_at(s, c);
                    lemma_run_end(s, q, Class::Blank);
                }
                match block_at(s, run_end(s, q, Class::Blank)) {
                    Parsed::Fail(at, expected) => Parsed::Fail(at, expected),
                    Parsed::Done(body, r) => Parsed::Done(Statement::If { cond, body }, r),
                }
            },
        }
    } else {
        let name = s.subrange(p, e);
        match arguments_from(s, e) {
            Parsed::Fail(at, expected) => Parsed::Fail(at, expected),
            Parsed::Done(args, q) => {
                proof {
                    lemma_arguments_from(s, e);
                }
                if q < s.len() && s[q] == '{' {
                    match block_at(s, q) {
                        Parsed::Fail(at, expected) => Parsed::Fail(at, expected),
                        Parsed::Done(body, r) => Parsed::Done(
                            Statement::Command { name, args, block: Some(body) },
                            r,
                        ),
                    }
                } else {
                    Parsed::Done(Statement::Command { name, args, block: None }, q)
                }
            },
        }
    }
}

/// The block at `p`.
pub open spec fn block_at(s: Seq<char>, p: int) -> Parsed<Seq<Statement>>
    decreases s.len() - p, 0int,
{
    if 0 <= p < s.len() && s[p] == '{' {
        match statements_from(s, p + 1) {
            Parsed::Fail(at, expected) => Parsed::Fail(at, expected),
            Parsed::Done(list, q) => if q < s.len() && s[q] == '}' {
                Parsed::Done(list, q + 1)
            } else {
                Parsed::Fail(q, Expected::BlockEnd)
            },
        }
    } else {
        Parsed::Fail(p, Expected::Block)
    }
}

/// The statements from `p` on, up to a closing brace, the end, or something
/// that cannot follow a statement.
pub open spec fn statements_from(s: Seq<char>, p: int) -> Parsed<Seq<Statement>>
    decreases s.len() - p, 2int,
{
    let q = run_end(s, p, Class::Gap);
    if 0 <= p <= s.len() && q < s.len() && s[q] != '}' {
        proof {
            lemma_run_end(s, p, Class::Gap);
        }
        match statement_at(s, q) {
            Parsed::Fail(at, expected) => Parsed::Fail(at, expected),
            Parsed::Done(statement, e) => {
                let t = run_end(s, e, Class::Blank);
                if q < t < s.len() && is_break(s[t]) {
                    prepend(seq![statement], statements_from(s, t))
                } else {
                    Parsed::Done(seq![statement], t)
                }
            },
        }
    } else {
        Parsed::Done(seq![], q)
    }
}

/// The statements of a whole script.
pub open spec fn script_of(s: Seq<char>) -> Parsed<Seq<Statement>> {
    match statements_from(s, 0) {
        Parsed::Fail(at, expected) => Parsed::Fail(at, expected),
        Parsed::Done(list, e) => if e == s.len() {
            Parsed::Done(list, e)
        } else {
            Parsed::Fail(e, Expected::ScriptEnd)
        },
    }
}

pub proof fn lemma_arguments_from(s: Seq<char>, p: int)
    requires
        0 <= p <= s.len(),
    ensures
        arguments_from(s, p) matches Parsed::Done(_, e) ==> p <= e <= s.len(),
        arguments_from(s, p) matches Parsed::Fail(at, _) ==> p <= at <= s.len(),
    decreases s.len() - p,
{
    let q = run_end(s, p, Class::Blank);
    lemma_run_end(s, p, Class::Blank);
    if word_starts(s, q) {
        lemma_word_end(s, q, false);
        if let Some(e) = word_end(s, q, false) {
            lemma_arguments_from(s, e);
        }
    }
}

pub proof fn lemma_statement_at(s: Seq<char>, p: int)
    requires
        0 <= p <= s.len(),
    ensures
        statement_at(s, p) matches Parsed::Done(_, e) ==> p < e <= s.len(),
        statement_at(s, p) matches Parsed::Fail(at, _) ==> p <= at <= s.len(),
    decreases s.len() - p, 1int,
{
    let e = run_end(s, p, Class::Bare);
    lemma_run_end(s, p, Class::Bare);
    if p < e {
        if means_if(s.subrange(p, e)) {
            let c = run_end(s, e, Class::Blank);
            lemma_run_end(s, e, Class::Blank);
            lemma_condition_at(s, c);
            if let Parsed::Done(cond, q) = condition_at(s, c) {
                lemma_run_end(s, q, Class::Blank);
                lemma_block_at(s, run_end(s, q, Class::Blank));
            }
        } else {
            lemma_arguments_from(s, e);
            if let Parsed::Done(args, q) = arguments_from(s, e) {
                lemma_block_at(s, q);
            }
        }
    }
}

pub proof fn lemma_block_at(s: Seq<char>, p: int)
    requires
        0 <= p <= s.len(),
    ensures
        block_at(s, p) matches Parsed::Done(_, e) ==> p < e <= s.len(),
        block_at(s, p) matches Parsed::Fail(at, _) ==> p <= at <= s.len(),
    decreases s.len() - p, 0int,
{
    if p < s.len() && s[p] == '{' {
        lemma_statements_from(s, p + 1);
    }
}

pub proof fn lemma_statements_from(s: Seq<char>, p: int)
    requires
        0 <= p <= s.len(),
    ensures
        statements_from(s, p) matches Parsed::Done(_, e) ==> p <= e <= s.len(),
        statements_from(s, p) matches Parsed::Fail(at, _) ==> p <= at <= s.len(),
    decreases s.len() - p, 2int,
{
    let q = run_end(s, p, Class::Gap);
    lemma_run_end(s, p, Class::Gap);
    if q < s.len() && s[q] != '}' {
        lemma_statement_at(s, q);
        if let Parsed::Done(statement, e) = statement_at(s, q) {
            lemma_run_end(s, e, Class::Blank);
            let t = run_end(s, e, Class::Blank);
            if t < s.len() && is_break(s[t]) {
                lemma_statements_from(s, t);
            }
        }
    }
}

} // verus!
