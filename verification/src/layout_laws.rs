//! Scripts mean the same however they are laid out, and what is no script is
//! refused where it goes wrong.

use vstd::prelude::*;

use crate::ast::{Cond, Statement};
use crate::grammar::{
    arguments_from, block_at, both_at, both_tail, comparison_at, condition_at, condition_tail,
    means_if, operand_end, operand_goes_on, operator_at, pair_at, quote_end, script_of,
    statement_at, statements_from, word_end, word_starts, Expected, Parsed,
};
use crate::grammar_laws::{
    are_statements, is_bare, is_comparison, is_conjunction, is_layered, is_name, is_plain_operand,
    is_statement, lemma_quoted_word, lemma_stands_index, lemma_stands_split,
    lemma_stands_text, lemma_stands_whole, stands, written_op,
};
use crate::parser::expectation;
use crate::quote::{quoted, unquoted};
use crate::text::{in_class, is_break, lemma_run_end, lemma_run_end_is, run_end, Class};

verus! {

// ---------------------------------------------------------------------------
// Layouts
// ---------------------------------------------------------------------------

/// A way to lay out a script.
pub struct Layout {
    /// What stands before each argument and behind `if`.
    pub space: Seq<char>,
    /// What stands round operators and before blocks.
    pub pad: Seq<char>,
    /// What stands between two statements.
    pub gap: Seq<char>,
    /// What stands at the beginning and at the end of a script or block.
    pub inner: Seq<char>,
    /// Whether words go without quotes where they can.
    pub plain: bool,
    /// How the word `if` is written.
    pub keyword: Seq<char>,
}

/// Whether all of `s` is of the kind `k`.
pub open spec fn all_in(s: Seq<char>, k: Class) -> bool {
    forall|i: int| 0 <= i < s.len() ==> in_class(k, #[trigger] s[i])
}

impl Layout {
    /// Whether this separates what must be separated: words by spaces and
    /// tabs, statements by at least one line break or `;` among any of these.
    pub open spec fn wf(self) -> bool {
        &&& self.space.len() > 0
        &&& all_in(self.space, Class::Blank)
        &&& all_in(self.pad, Class::Blank)
        &&& all_in(self.gap, Class::Gap)
        &&& exists|i: int| 0 <= i < self.gap.len() && is_break(#[trigger] self.gap[i])
        &&& all_in(self.inner, Class::Gap)
        &&& self.keyword.len() > 0
        &&& all_in(self.keyword, Class::Bare)
        &&& means_if(self.keyword)
    }
}

/// An argument.
pub open spec fn word_text(l: Layout, w: Seq<char>) -> Seq<char> {
    if l.plain && is_bare(w) {
        w
    } else {
        quoted(w)
    }
}

/// An operand of a condition.
pub open spec fn operand_text(l: Layout, w: Seq<char>) -> Seq<char> {
    if l.plain && is_plain_operand(w) {
        w
    } else {
        quoted(w)
    }
}

/// The arguments from place `i` on.
pub open spec fn args_text(l: Layout, args: Seq<Seq<char>>, i: int) -> Seq<char>
    decreases args.len() - i,
{
    if 0 <= i < args.len() {
        l.space + (word_text(l, args[i]) + args_text(l, args, i + 1))
    } else {
        seq![]
    }
}

/// A condition.
pub open spec fn cond_text(l: Layout, c: Cond) -> Seq<char>
    decreases c,
{
    match c {
        Cond::Atom(v) => operand_text(l, v),
        Cond::Cmp(a, op, b) => operand_text(l, a) + (l.pad + (written_op(op) + (l.pad
            + operand_text(l, b)))),
        Cond::And(a, b) => cond_text(l, *a) + (l.pad + (seq!['&', '&'] + (l.pad + cond_text(
            l,
            *b,
        )))),
        Cond::Or(a, b) => cond_text(l, *a) + (l.pad + (seq!['|', '|'] + (l.pad + cond_text(
            l,
            *b,
        )))),
    }
}

/// A statement.
pub open spec fn statement_text(l: Layout, statement: Statement) -> Seq<char>
    decreases statement, 0int,
{
    match statement {
        Statement::If { cond, body } => l.keyword + (l.space + (cond_text(l, cond) + (l.pad + (
        seq!['{'] + (l.inner + (statements_text(l, body, 0) + (l.inner + seq!['}']))))))),
        Statement::Command { name, args, block } => name + (args_text(l, args, 0) + match block {
            Some(b) => l.pad + (seq!['{'] + (l.inner + (statements_text(l, b, 0) + (l.inner
                + seq!['}'])))),
            None => seq![],
        }),
    }
}

/// The statements from place `i` on.
pub open spec fn statements_text(l: Layout, list: Seq<Statement>, i: int) -> Seq<char>
    decreases list, list.len() - i,
{
    if 0 <= i < list.len() {
        if i + 1 < list.len() {
            statement_text(l, list[i]) + (l.gap + statements_text(l, list, i + 1))
        } else {
            statement_text(l, list[i])
        }
    } else {
        seq![]
    }
}

/// A block.
pub open spec fn block_text(l: Layout, list: Seq<Statement>) -> Seq<char> {
    seq!['{'] + (l.inner + (statements_text(l, list, 0) + (l.inner + seq!['}'])))
}

/// A script.
pub open spec fn script_text(l: Layout, list: Seq<Statement>) -> Seq<char> {
    l.inner + (statements_text(l, list, 0) + l.inner)
}

// ---------------------------------------------------------------------------
// Runs and words
// ---------------------------------------------------------------------------

proof fn lemma_run_over(s: Seq<char>, p: int, x: Seq<char>, k: Class)
    requires
        stands(s, p, x),
        all_in(x, k),
        p + x.len() < s.len() ==> !in_class(k, s[p + x.len()]),
    ensures
        run_end(s, p, k) == p + x.len(),
{
    assert forall|i: int| p <= i < p + x.len() implies in_class(k, #[trigger] s[i]) by {
        lemma_stands_index(s, p, x, i - p);
        assert(in_class(k, x[i - p]));
    }
    lemma_run_end_is(s, p, p + x.len(), k);
}

/// A run that starts within another of its kind ends where that ends.
proof fn lemma_run_joined(s: Seq<char>, p: int, q: int, k: Class)
    requires
        0 <= p <= q <= s.len(),
        forall|i: int| p <= i < q ==> in_class(k, #[trigger] s[i]),
    ensures
        run_end(s, p, k) == run_end(s, q, k),
    decreases q - p,
{
    if p < q {
        assert(in_class(k, s[p]));
        lemma_run_joined(s, p + 1, q, k);
    }
}

proof fn lemma_word(l: Layout, s: Seq<char>, p: int, w: Seq<char>)
    requires
        stands(s, p, word_text(l, w)),
        ({
            let e = p + word_text(l, w).len();
            e < s.len() ==> !in_class(Class::Bare, s[e])
        }),
    ensures
        word_end(s, p, false) == Some(p + word_text(l, w).len()),
        unquoted(s.subrange(p, p + word_text(l, w).len())) == w,
        word_starts(s, p),
        !in_class(Class::Blank, s[p]),
        word_text(l, w).len() > 0,
{
    if l.plain && is_bare(w) {
        lemma_run_over(s, p, w, Class::Bare);
        lemma_stands_index(s, p, w, 0);
        assert(in_class(Class::Bare, w[0]));
        lemma_stands_text(s, p, w);
    } else {
        lemma_quoted_word(s, p, w, false);
    }
}

proof fn lemma_args(l: Layout, s: Seq<char>, p: int, args: Seq<Seq<char>>, i: int, q: int)
    requires
        l.wf(),
        0 <= i <= args.len(),
        stands(s, p, args_text(l, args, i)),
        ({
            let e = p + args_text(l, args, i).len();
            &&& e < s.len() ==> !in_class(Class::Bare, s[e])
            &&& q == run_end(s, e, Class::Blank)
        }),
        !word_starts(s, q),
    ensures
        arguments_from(s, p) == Parsed::Done(args.skip(i), q),
    decreases args.len() - i,
{
    if i < args.len() {
        let w = word_text(l, args[i]);
        let tail = args_text(l, args, i + 1);
        let a = p + l.space.len();
        let e = a + w.len();
        lemma_stands_split(s, p, l.space, w + tail);
        lemma_stands_split(s, a, w, tail);
        if i + 1 < args.len() {
            lemma_stands_split(s, e, l.space, word_text(l, args[i + 1]) + args_text(l, args, i + 2));
            lemma_stands_index(s, e, l.space, 0);
            assert(in_class(Class::Blank, l.space[0]));
        }
        lemma_word(l, s, a, args[i]);
        lemma_run_over(s, p, l.space, Class::Blank);
        lemma_args(l, s, e, args, i + 1, q);
        assert(args.skip(i) =~= seq![args[i]] + args.skip(i + 1));
    } else {
        assert(args.skip(i) =~= seq![]);
    }
}

// ---------------------------------------------------------------------------
// Conditions
// ---------------------------------------------------------------------------

proof fn lemma_operand_run(s: Seq<char>, p: int, w: Seq<char>, i: int)
    requires
        is_plain_operand(w),
        stands(s, p, w),
        0 <= i <= w.len(),
        !operand_goes_on(s, p + w.len()),
    ensures
        operand_end(s, p + i) == p + w.len(),
    decreases w.len() - i,
{
    if i < w.len() {
        lemma_stands_index(s, p, w, i);
        assert(in_class(Class::Bare, w[i]));
        assert(operand_goes_on(s, p + i));
        lemma_operand_run(s, p, w, i + 1);
    }
}

proof fn lemma_operand(l: Layout, s: Seq<char>, p: int, w: Seq<char>)
    requires
        stands(s, p, operand_text(l, w)),
        !operand_goes_on(s, p + operand_text(l, w).len()),
    ensures
        word_end(s, p, true) == Some(p + operand_text(l, w).len()),
        unquoted(s.subrange(p, p + operand_text(l, w).len())) == w,
        p < s.len(),
        !in_class(Class::Blank, s[p]),
        s[p] != '=',
{
    if l.plain && is_plain_operand(w) {
        lemma_stands_index(s, p, w, 0);
        assert(in_class(Class::Bare, w[0]));
        lemma_operand_run(s, p, w, 0);
        lemma_stands_text(s, p, w);
    } else {
        lemma_quoted_word(s, p, w, true);
    }
}

proof fn lemma_operand_starts(l: Layout, s: Seq<char>, p: int, w: Seq<char>)
    requires
        stands(s, p, operand_text(l, w)),
    ensures
        p < s.len(),
        !in_class(Class::Blank, s[p]),
        s[p] != '=',
{
    if l.plain && is_plain_operand(w) {
        lemma_stands_index(s, p, w, 0);
        assert(in_class(Class::Bare, w[0]));
    } else {
        lemma_quoted_word(s, p, w, true);
    }
}

proof fn lemma_cond_starts(l: Layout, s: Seq<char>, p: int, c: Cond)
    requires
        stands(s, p, cond_text(l, c)),
    ensures
        p < s.len(),
        !in_class(Class::Blank, s[p]),
        s[p] != '=',
    decreases c,
{
    match c {
        Cond::Atom(v) => {
            lemma_operand_starts(l, s, p, v);
        },
        Cond::Cmp(a, op, b) => {
            lemma_stands_split(
                s,
                p,
                operand_text(l, a),
                l.pad + (written_op(op) + (l.pad + operand_text(l, b))),
            );
            lemma_operand_starts(l, s, p, a);
        },
        Cond::And(a, b) => {
            lemma_stands_split(
                s,
                p,
                cond_text(l, *a),
                l.pad + (seq!['&', '&'] + (l.pad + cond_text(l, *b))),
            );
            lemma_cond_starts(l, s, p, *a);
        },
        Cond::Or(a, b) => {
            lemma_stands_split(
                s,
                p,
                cond_text(l, *a),
                l.pad + (seq!['|', '|'] + (l.pad + cond_text(l, *b))),
            );
            lemma_cond_starts(l, s, p, *a);
        },
    }
}

/// What may follow a condition.
spec fn cond_ends(s: Seq<char>, e: int) -> bool {
    &&& !operand_goes_on(s, e)
    &&& operator_at(s, run_end(s, e, Class::Blank)) is None
}

/// Padding and then a sign that is no blank.
proof fn lemma_padded(l: Layout, s: Seq<char>, e: int, sign: Seq<char>, rest: Seq<char>)
    requires
        l.wf(),
        stands(s, e, l.pad + (sign + rest)),
        sign.len() > 0,
        !in_class(Class::Blank, sign[0]),
    ensures
        stands(s, e + l.pad.len(), sign),
        stands(s, e + l.pad.len() + sign.len(), rest),
        run_end(s, e, Class::Blank) == e + l.pad.len(),
        e < s.len(),
        e + l.pad.len() < s.len(),
        s[e + l.pad.len()] == sign[0],
        l.pad.len() > 0 ==> in_class(Class::Blank, s[e]),
{
    let q = e + l.pad.len();
    lemma_stands_split(s, e, l.pad, sign + rest);
    lemma_stands_split(s, q, sign, rest);
    lemma_stands_index(s, q, sign, 0);
    lemma_run_over(s, e, l.pad, Class::Blank);
    if l.pad.len() > 0 {
        lemma_stands_index(s, e, l.pad, 0);
        assert(in_class(Class::Blank, l.pad[0]));
    }
}

proof fn lemma_comparison(l: Layout, s: Seq<char>, p: int, c: Cond)
    requires
        l.wf(),
        is_comparison(c),
        stands(s, p, cond_text(l, c)),
        cond_ends(s, p + cond_text(l, c).len()),
    ensures
        comparison_at(s, p) == Parsed::Done(c, p + cond_text(l, c).len()),
{
    match c {
        Cond::Atom(v) => {
            lemma_operand(l, s, p, v);
        },
        Cond::Cmp(a, op, b) => {
            let o = written_op(op);
            let right = operand_text(l, b);
            let e = p + operand_text(l, a).len();
            let q = e + l.pad.len();
            let f = q + o.len();
            let r = f + l.pad.len();
            lemma_stands_split(s, p, operand_text(l, a), l.pad + (o + (l.pad + right)));
            lemma_padded(l, s, e, o, l.pad + right);
            if o.len() == 2 {
                lemma_stands_index(s, q, o, 1);
            }
            lemma_stands_split(s, f, l.pad, right);
            lemma_operand_starts(l, s, r, b);
            lemma_run_over(s, f, l.pad, Class::Blank);
            if l.pad.len() > 0 {
                lemma_stands_index(s, f, l.pad, 0);
                assert(in_class(Class::Blank, l.pad[0]));
            }
            assert(s[f] != '=');
            assert(operator_at(s, q) == Some(op));
            assert(!operand_goes_on(s, e));
            lemma_operand(l, s, p, a);
            lemma_operand(l, s, r, b);
        },
        _ => {},
    }
}

proof fn lemma_conjunction(l: Layout, s: Seq<char>, p: int, c: Cond)
    requires
        l.wf(),
        is_conjunction(c),
        stands(s, p, cond_text(l, c)),
        cond_ends(s, p + cond_text(l, c).len()),
    ensures
        both_at(s, p) == both_tail(s, c, p + cond_text(l, c).len()),
    decreases c,
{
    match c {
        Cond::And(a, b) => {
            let o = seq!['&', '&'];
            let right = cond_text(l, *b);
            let e = p + cond_text(l, *a).len();
            let q = e + l.pad.len();
            let r = q + 2 + l.pad.len();
            lemma_stands_split(s, p, cond_text(l, *a), l.pad + (o + (l.pad + right)));
            lemma_padded(l, s, e, o, l.pad + right);
            lemma_stands_index(s, q, o, 1);
            lemma_stands_split(s, q + 2, l.pad, right);
            lemma_cond_starts(l, s, r, *b);
            lemma_run_over(s, q + 2, l.pad, Class::Blank);
            assert(pair_at(s, q, '&', '&'));
            assert(cond_ends(s, e));
            lemma_conjunction(l, s, p, *a);
            lemma_comparison(l, s, r, *b);
        },
        _ => {
            lemma_comparison(l, s, p, c);
        },
    }
}

proof fn lemma_layered(l: Layout, s: Seq<char>, p: int, c: Cond)
    requires
        l.wf(),
        is_layered(c),
        stands(s, p, cond_text(l, c)),
        cond_ends(s, p + cond_text(l, c).len()),
        !pair_at(s, run_end(s, p + cond_text(l, c).len(), Class::Blank), '&', '&'),
    ensures
        condition_at(s, p) == condition_tail(s, c, p + cond_text(l, c).len()),
    decreases c,
{
    let end = p + cond_text(l, c).len();
    match c {
        Cond::Or(a, b) => {
            let o = seq!['|', '|'];
            let right = cond_text(l, *b);
            let e = p + cond_text(l, *a).len();
            let q = e + l.pad.len();
            let r = q + 2 + l.pad.len();
            lemma_stands_split(s, p, cond_text(l, *a), l.pad + (o + (l.pad + right)));
            lemma_padded(l, s, e, o, l.pad + right);
            lemma_stands_index(s, q, o, 1);
            lemma_stands_split(s, q + 2, l.pad, right);
            lemma_cond_starts(l, s, r, *b);
            lemma_run_over(s, q + 2, l.pad, Class::Blank);
            assert(pair_at(s, q, '|', '|'));
            assert(cond_ends(s, e));
            lemma_layered(l, s, p, *a);
            lemma_conjunction(l, s, r, *b);
            assert(both_at(s, r) == Parsed::Done(*b, end));
        },
        _ => {
            lemma_conjunction(l, s, p, c);
            assert(both_at(s, p) == Parsed::Done(c, end));
        },
    }
}

// ---------------------------------------------------------------------------
// Statements
// ---------------------------------------------------------------------------

/// What may follow a statement: behind blanks a break, a closing brace or the
/// end.
spec fn closes(s: Seq<char>, e: int) -> bool {
    let t = run_end(s, e, Class::Blank);
    t == s.len() || is_break(s[t]) || s[t] == '}'
}

/// What may follow a list of statements, behind what separates them.
spec fn shuts(s: Seq<char>, e: int) -> bool {
    e == s.len() || (0 <= e < s.len() && s[e] == '}')
}

/// Whether a statement that ends at `e`, or at blanks behind it, was read at
/// `p`.
spec fn read_up_to(s: Seq<char>, p: int, statement: Statement, e: int) -> bool {
    &&& statement_at(s, p) matches Parsed::Done(x, f) && x == statement && e <= f <= s.len()
        && run_end(s, f, Class::Blank) == run_end(s, e, Class::Blank)
    &&& 0 <= p < e
    &&& !in_class(Class::Gap, s[p])
    &&& s[p] != '}'
}

proof fn lemma_statement(l: Layout, s: Seq<char>, p: int, statement: Statement)
    requires
        l.wf(),
        is_statement(statement),
        stands(s, p, statement_text(l, statement)),
        closes(s, p + statement_text(l, statement).len()),
    ensures
        read_up_to(s, p, statement, p + statement_text(l, statement).len()),
    decreases statement, 1int,
{
    match statement {
        Statement::If { .. } => {
            lemma_if(l, s, p, statement);
        },
        Statement::Command { .. } => {
            lemma_command(l, s, p, statement);
        },
    }
}

proof fn lemma_if(l: Layout, s: Seq<char>, p: int, statement: Statement)
    requires
        l.wf(),
        statement is If,
        is_statement(statement),
        stands(s, p, statement_text(l, statement)),
    ensures
        read_up_to(s, p, statement, p + statement_text(l, statement).len()),
    decreases statement, 0int,
{
    let cond = statement->cond;
    let body = statement->body;
    let word = l.keyword;
    let c = cond_text(l, cond);
    let b = block_text(l, body);
    let rest = l.inner + (statements_text(l, body, 0) + (l.inner + seq!['}']));
    lemma_stands_split(s, p, word, l.space + (c + (l.pad + b)));
    let k = p + word.len();
    lemma_stands_split(s, k, l.space, c + (l.pad + b));
    lemma_stands_index(s, k, l.space, 0);
    assert(in_class(Class::Blank, l.space[0]));
    lemma_run_over(s, p, word, Class::Bare);
    lemma_stands_index(s, p, word, 0);
    assert(in_class(Class::Bare, word[0]));
    lemma_stands_text(s, p, word);
    let a = k + l.space.len();
    lemma_stands_split(s, a, c, l.pad + b);
    let e = a + c.len();
    lemma_padded(l, s, e, seq!['{'], rest);
    let f = e + l.pad.len();
    lemma_stands_split(s, e, l.pad, b);
    lemma_block(l, s, f, body);
    lemma_cond_starts(l, s, a, cond);
    lemma_run_over(s, k, l.space, Class::Blank);
    assert(cond_ends(s, e));
    lemma_layered(l, s, a, cond);
    assert(condition_at(s, a) == Parsed::Done(cond, e));
    assert(statement_at(s, p) == Parsed::Done(statement, f + b.len()));
}

proof fn lemma_command(l: Layout, s: Seq<char>, p: int, statement: Statement)
    requires
        l.wf(),
        statement is Command,
        is_statement(statement),
        stands(s, p, statement_text(l, statement)),
        closes(s, p + statement_text(l, statement).len()),
    ensures
        read_up_to(s, p, statement, p + statement_text(l, statement).len()),
    decreases statement, 0int,
{
    let name = statement->name;
    let args = statement->args;
    let a = args_text(l, args, 0);
    let e = p + name.len();
    let f = e + a.len();
    match statement->block {
        Some(list) => {
            let b = block_text(l, list);
            let rest = l.inner + (statements_text(l, list, 0) + (l.inner + seq!['}']));
            lemma_stands_split(s, p, name, a + (l.pad + b));
            lemma_stands_split(s, e, a, l.pad + b);
            lemma_padded(l, s, f, seq!['{'], rest);
            lemma_stands_split(s, f, l.pad, b);
            let q = f + l.pad.len();
            lemma_block(l, s, q, list);
            lemma_name(l, s, p, name, args);
            lemma_args(l, s, e, args, 0, q);
            assert(args.skip(0) =~= args);
            assert(statement_at(s, p) == Parsed::Done(statement, q + b.len()));
        },
        None => {
            let none = Seq::<char>::empty();
            assert(a + none =~= a);
            lemma_stands_split(s, p, name, a);
            let q = run_end(s, f, Class::Blank);
            lemma_run_end(s, f, Class::Blank);
            lemma_name(l, s, p, name, args);
            lemma_args(l, s, e, args, 0, q);
            assert(args.skip(0) =~= args);
            assert(run_end(s, q, Class::Blank) == q);
            assert(statement_at(s, p) == Parsed::Done(statement, q));
        },
    }
}

proof fn lemma_name(l: Layout, s: Seq<char>, p: int, name: Seq<char>, args: Seq<Seq<char>>)
    requires
        l.wf(),
        is_name(name),
        stands(s, p, name),
        stands(s, p + name.len(), args_text(l, args, 0)),
        ({
            let f = p + name.len() + args_text(l, args, 0).len();
            f < s.len() ==> !in_class(Class::Bare, s[f])
        }),
    ensures
        run_end(s, p, Class::Bare) == p + name.len(),
        s.subrange(p, p + name.len()) == name,
        in_class(Class::Bare, s[p]),
{
    let e = p + name.len();
    if args.len() > 0 {
        lemma_stands_split(s, e, l.space, word_text(l, args[0]) + args_text(l, args, 1));
        lemma_stands_index(s, e, l.space, 0);
        assert(in_class(Class::Blank, l.space[0]));
    }
    lemma_run_over(s, p, name, Class::Bare);
    lemma_stands_index(s, p, name, 0);
    assert(in_class(Class::Bare, name[0]));
    lemma_stands_text(s, p, name);
}

proof fn lemma_block(l: Layout, s: Seq<char>, p: int, list: Seq<Statement>)
    requires
        l.wf(),
        are_statements(list, 0),
        stands(s, p, block_text(l, list)),
    ensures
        block_at(s, p) == Parsed::Done(list, p + block_text(l, list).len()),
        p < s.len(),
        s[p] == '{',
    decreases list, list.len() + 1,
{
    let open = seq!['{'];
    let shut = seq!['}'];
    let t = statements_text(l, list, 0);
    lemma_stands_split(s, p, open, l.inner + (t + (l.inner + shut)));
    lemma_stands_index(s, p, open, 0);
    let a = p + 1;
    lemma_stands_split(s, a, l.inner, t + (l.inner + shut));
    let b = a + l.inner.len();
    lemma_stands_split(s, b, t, l.inner + shut);
    let c = b + t.len();
    lemma_stands_split(s, c, l.inner, shut);
    let d = c + l.inner.len();
    lemma_stands_index(s, d, shut, 0);
    lemma_run_over(s, c, l.inner, Class::Gap);
    lemma_list(l, s, b, list, 0, d);
    lemma_gap_before(s, a, l.inner);
    assert(list.skip(0) =~= list);
}

/// What separates statements makes no difference before them.
proof fn lemma_gap_before(s: Seq<char>, p: int, gap: Seq<char>)
    requires
        stands(s, p, gap),
        all_in(gap, Class::Gap),
    ensures
        statements_from(s, p) == statements_from(s, p + gap.len()),
{
    assert forall|i: int| p <= i < p + gap.len() implies in_class(Class::Gap, #[trigger] s[i]) by {
        lemma_stands_index(s, p, gap, i - p);
        assert(in_class(Class::Gap, gap[i - p]));
    }
    lemma_run_joined(s, p, p + gap.len(), Class::Gap);
}

/// A gap has a break behind its blanks.
proof fn lemma_gap_breaks(l: Layout, s: Seq<char>, p: int)
    requires
        l.wf(),
        stands(s, p, l.gap),
    ensures
        ({
            let t = run_end(s, p, Class::Blank);
            &&& p <= t < p + l.gap.len()
            &&& t < s.len()
            &&& is_break(s[t])
            &&& forall|i: int| t <= i < p + l.gap.len() ==> in_class(Class::Gap, #[trigger] s[i])
        }),
{
    let t = run_end(s, p, Class::Blank);
    lemma_run_end(s, p, Class::Blank);
    let k = choose|i: int| 0 <= i < l.gap.len() && is_break(#[trigger] l.gap[i]);
    lemma_stands_index(s, p, l.gap, k);
    assert(!in_class(Class::Blank, s[p + k]));
    assert(t <= p + k);
    assert forall|i: int| p <= i < p + l.gap.len() implies in_class(
        Class::Gap,
        #[trigger] s[i],
    ) by {
        lemma_stands_index(s, p, l.gap, i - p);
        assert(in_class(Class::Gap, l.gap[i - p]));
    }
    assert(in_class(Class::Gap, s[t]));
}

proof fn lemma_list(l: Layout, s: Seq<char>, p: int, list: Seq<Statement>, i: int, e: int)
    requires
        l.wf(),
        0 <= i <= list.len(),
        are_statements(list, i),
        stands(s, p, statements_text(l, list, i)),
        e == run_end(s, p + statements_text(l, list, i).len(), Class::Gap),
        shuts(s, e),
    ensures
        statements_from(s, p) == Parsed::Done(list.skip(i), e),
    decreases list, list.len() - i,
{
    if i < list.len() {
        let st = list[i];
        let text = statement_text(l, st);
        let f = p + text.len();
        if i + 1 < list.len() {
            let rest = statements_text(l, list, i + 1);
            lemma_stands_split(s, p, text, l.gap + rest);
            lemma_stands_split(s, f, l.gap, rest);
            lemma_gap_breaks(l, s, f);
            lemma_statement(l, s, p, st);
            let t = run_end(s, f, Class::Blank);
            let next = f + l.gap.len();
            lemma_list(l, s, next, list, i + 1, e);
            lemma_run_joined(s, t, next, Class::Gap);
            assert(statements_from(s, t) == statements_from(s, next));
            assert(list.skip(i) =~= seq![st] + list.skip(i + 1));
        } else {
            lemma_last(s, f, e);
            lemma_statement(l, s, p, st);
            let t = run_end(s, f, Class::Blank);
            assert(list.skip(i) =~= seq![st]);
            assert(seq![st] + Seq::<Statement>::empty() =~= seq![st]);
        }
        lemma_run_end_is(s, p, p, Class::Gap);
    } else {
        assert(list.skip(i) =~= seq![]);
    }
}

/// What follows the last statement of a list.
proof fn lemma_last(s: Seq<char>, f: int, e: int)
    requires
        0 <= f <= s.len(),
        e == run_end(s, f, Class::Gap),
        shuts(s, e),
    ensures
        closes(s, f),
        ({
            let t = run_end(s, f, Class::Blank);
            &&& f <= t <= s.len()
            &&& t < s.len() && is_break(s[t]) ==> statements_from(s, t) == Parsed::Done(
                Seq::<Statement>::empty(),
                e,
            )
            &&& !(t < s.len() && is_break(s[t])) ==> t == e
        }),
{
    let t = run_end(s, f, Class::Blank);
    lemma_run_end(s, f, Class::Blank);
    lemma_run_end(s, f, Class::Gap);
    assert forall|i: int| f <= i < t implies in_class(Class::Gap, #[trigger] s[i]) by {
        assert(in_class(Class::Blank, s[i]));
    }
    lemma_run_joined(s, f, t, Class::Gap);
    if !(t < s.len() && is_break(s[t])) {
        lemma_run_end_is(s, t, t, Class::Gap);
    }
}

// ---------------------------------------------------------------------------
// The laws
// ---------------------------------------------------------------------------

/// However a script is laid out, it is read as its statements: with any
/// spaces and tabs between words, with or without them round operators and
/// before blocks, with any line breaks and `;` between statements and at the
/// ends of blocks, with `if` in any of its spellings, and with quotes or
/// without them where a word needs none.
pub proof fn law_layout(l: Layout, list: Seq<Statement>)
    requires
        l.wf(),
        are_statements(list, 0),
    ensures
        ({
            let s = script_text(l, list);
            script_of(s) == Parsed::Done(list, s.len() as int)
        }),
{
    let s = script_text(l, list);
    lemma_script_list(l, list, s);
}

proof fn lemma_script_list(l: Layout, list: Seq<Statement>, s: Seq<char>)
    requires
        l.wf(),
        are_statements(list, 0),
        stands(s, 0, script_text(l, list)),
        shuts(s, script_text(l, list).len() as int),
    ensures
        statements_from(s, 0) == Parsed::Done(list, script_text(l, list).len() as int),
{
    let t = statements_text(l, list, 0);
    let a = l.inner.len() as int;
    let b = a + t.len();
    lemma_stands_split(s, 0, l.inner, t + l.inner);
    lemma_stands_split(s, a, t, l.inner);
    lemma_run_over(s, b, l.inner, Class::Gap);
    lemma_list(l, s, a, list, 0, b + l.inner.len());
    lemma_gap_before(s, 0, l.inner);
    assert(list.skip(0) =~= list);
}

/// A closing brace behind a script that opens none is refused, where it
/// stands, whatever follows it.
pub proof fn law_stray_brace(l: Layout, list: Seq<Statement>, rest: Seq<char>)
    requires
        l.wf(),
        are_statements(list, 0),
    ensures
        ({
            let t = script_text(l, list);
            script_of(t + (seq!['}'] + rest)) == Parsed::<Seq<Statement>>::Fail(
                t.len() as int,
                Expected::ScriptEnd,
            )
        }),
{
    let t = script_text(l, list);
    let s = t + (seq!['}'] + rest);
    assert(s[t.len() as int] == '}');
    lemma_script_list(l, list, s);
}

/// A block that is not closed is refused at the end of the script.
pub proof fn law_open_block(l: Layout, name: Seq<char>, list: Seq<Statement>)
    requires
        l.wf(),
        is_name(name),
        are_statements(list, 0),
    ensures
        ({
            let s = name + (l.pad + (seq!['{'] + script_text(l, list)));
            script_of(s) == Parsed::<Seq<Statement>>::Fail(s.len() as int, Expected::BlockEnd)
        }),
{
    let body = script_text(l, list);
    let s = name + (l.pad + (seq!['{'] + body));
    let e = name.len() as int;
    let q = e + l.pad.len();
    lemma_stands_whole(s);
    lemma_stands_split(s, 0, name, l.pad + (seq!['{'] + body));
    lemma_padded(l, s, e, seq!['{'], body);
    assert(args_text(l, seq![], 0) =~= seq![]);
    lemma_name(l, s, 0, name, seq![]);
    lemma_args(l, s, e, seq![], 0, q);
    lemma_block_open(l, s, q, list);
    assert(statement_at(s, 0) == Parsed::<Statement>::Fail(s.len() as int, Expected::BlockEnd));
    lemma_refused(s, s.len() as int, Expected::BlockEnd);
}

proof fn lemma_block_open(l: Layout, s: Seq<char>, q: int, list: Seq<Statement>)
    requires
        l.wf(),
        are_statements(list, 0),
        0 <= q < s.len(),
        s[q] == '{',
        stands(s, q + 1, script_text(l, list)),
        q + 1 + script_text(l, list).len() == s.len(),
    ensures
        block_at(s, q) == Parsed::<Seq<Statement>>::Fail(s.len() as int, Expected::BlockEnd),
{
    let t = statements_text(l, list, 0);
    let a = q + 1;
    let b = a + l.inner.len();
    let c = b + t.len();
    lemma_stands_split(s, a, l.inner, t + l.inner);
    lemma_stands_split(s, b, t, l.inner);
    lemma_run_over(s, c, l.inner, Class::Gap);
    lemma_list(l, s, b, list, 0, c + l.inner.len());
    lemma_gap_before(s, a, l.inner);
}

/// A script whose first statement is refused is refused there.
proof fn lemma_refused(s: Seq<char>, at: int, expected: Expected)
    requires
        s.len() > 0,
        in_class(Class::Bare, s[0]),
        statement_at(s, 0) == Parsed::<Statement>::Fail(at, expected),
    ensures
        script_of(s) == Parsed::<Seq<Statement>>::Fail(at, expected),
{
    lemma_run_end_is(s, 0, 0, Class::Gap);
}

/// A quote that is not closed is refused where it opens.
pub proof fn law_open_quote(
    l: Layout,
    name: Seq<char>,
    args: Seq<Seq<char>>,
    text: Seq<char>,
)
    requires
        l.wf(),
        is_name(name),
        !text.contains('"'),
    ensures
        ({
            let head = name + (args_text(l, args, 0) + l.space);
            let s = name + (args_text(l, args, 0) + (l.space + (seq!['"'] + text)));
            script_of(s) == Parsed::<Seq<Statement>>::Fail(head.len() as int, Expected::Argument)
        }),
{
    let a = args_text(l, args, 0);
    let tail = l.space + (seq!['"'] + text);
    let s = name + (a + tail);
    let e = name.len() as int;
    let q = e + a.len() + l.space.len();
    lemma_stands_whole(s);
    lemma_stands_split(s, 0, name, a + tail);
    lemma_stands_split(s, e, a, tail);
    lemma_open_quote_stands(l, s, e + a.len(), text);
    lemma_name(l, s, 0, name, args);
    lemma_args_refused(l, s, e, args, 0, q);
    lemma_command_refused(s, e, q);
    lemma_refused(s, q, Expected::Argument);
}

/// A quote that is open up to the end of the text is no word.
proof fn lemma_open_quote_stands(l: Layout, s: Seq<char>, f: int, text: Seq<char>)
    requires
        l.wf(),
        !text.contains('"'),
        stands(s, f, l.space + (seq!['"'] + text)),
        f + l.space.len() + 1 + text.len() == s.len(),
    ensures
        ({
            let q = f + l.space.len();
            &&& f < s.len()
            &&& !in_class(Class::Bare, s[f])
            &&& run_end(s, f, Class::Blank) == q
            &&& word_starts(s, q)
            &&& word_end(s, q, false) is None
        }),
{
    let q = f + l.space.len();
    lemma_stands_split(s, f, l.space, seq!['"'] + text);
    lemma_stands_index(s, f, l.space, 0);
    assert(in_class(Class::Blank, l.space[0]));
    lemma_stands_split(s, q, seq!['"'], text);
    lemma_stands_index(s, q, seq!['"'], 0);
    assert forall|i: int| q + 1 <= i < s.len() implies #[trigger] s[i] != '"' by {
        lemma_stands_index(s, q + 1, text, i - q - 1);
        assert(text.contains(text[i - q - 1]));
    }
    lemma_quote_open(s, q + 1);
    lemma_run_over(s, f, l.space, Class::Blank);
}

/// A command whose arguments are refused is refused there.
proof fn lemma_command_refused(s: Seq<char>, e: int, q: int)
    requires
        0 < e <= s.len(),
        run_end(s, 0, Class::Bare) == e,
        !means_if(s.subrange(0, e)),
        arguments_from(s, e) == Parsed::<Seq<Seq<char>>>::Fail(q, Expected::Argument),
    ensures
        statement_at(s, 0) == Parsed::<Statement>::Fail(q, Expected::Argument),
{
}

proof fn lemma_quote_open(s: Seq<char>, p: int)
    requires
        0 <= p,
        forall|i: int| p <= i < s.len() ==> #[trigger] s[i] != '"',
    ensures
        quote_end(s, p) is None,
    decreases s.len() + 1 - p,
{
    if p < s.len() {
        assert(s[p] != '"');
        lemma_quote_open(s, p + 1);
        lemma_quote_open(s, p + 2);
    }
}

proof fn lemma_args_refused(
    l: Layout,
    s: Seq<char>,
    p: int,
    args: Seq<Seq<char>>,
    i: int,
    q: int,
)
    requires
        l.wf(),
        0 <= i <= args.len(),
        stands(s, p, args_text(l, args, i)),
        ({
            let e = p + args_text(l, args, i).len();
            &&& e < s.len() ==> !in_class(Class::Bare, s[e])
            &&& q == run_end(s, e, Class::Blank)
        }),
        word_starts(s, q),
        word_end(s, q, false) is None,
    ensures
        arguments_from(s, p) == Parsed::<Seq<Seq<char>>>::Fail(q, Expected::Argument),
    decreases args.len() - i,
{
    if i < args.len() {
        let w = word_text(l, args[i]);
        let tail = args_text(l, args, i + 1);
        let a = p + l.space.len();
        let e = a + w.len();
        lemma_stands_split(s, p, l.space, w + tail);
        lemma_stands_split(s, a, w, tail);
        if i + 1 < args.len() {
            lemma_stands_split(s, e, l.space, word_text(l, args[i + 1]) + args_text(l, args, i + 2));
            lemma_stands_index(s, e, l.space, 0);
            assert(in_class(Class::Blank, l.space[0]));
        }
        lemma_word(l, s, a, args[i]);
        lemma_run_over(s, p, l.space, Class::Blank);
        lemma_args_refused(l, s, e, args, i + 1, q);
    }
}

/// An `if` without a condition is refused where the condition should be.
pub proof fn law_if_without_condition(l: Layout, rest: Seq<char>)
    requires
        l.wf(),
    ensures
        ({
            let start = l.keyword + l.space;
            let s = l.keyword + (l.space + (seq!['{'] + rest));
            script_of(s) == Parsed::<Seq<Statement>>::Fail(start.len() as int, Expected::Operand)
        }),
{
    let k = l.keyword.len() as int;
    let a = k + l.space.len();
    let s = l.keyword + (l.space + (seq!['{'] + rest));
    lemma_if_starts(l, s, seq!['{'] + rest);
    lemma_stands_split(s, a, seq!['{'], rest);
    lemma_stands_index(s, a, seq!['{'], 0);
    lemma_run_over(s, k, l.space, Class::Blank);
    lemma_no_condition(s, a);
    lemma_if_refused(l, s, a, Expected::Operand);
}

proof fn lemma_no_condition(s: Seq<char>, a: int)
    requires
        0 <= a < s.len(),
        s[a] == '{',
    ensures
        condition_at(s, a) == Parsed::<Cond>::Fail(a, Expected::Operand),
{
    assert(operand_end(s, a) == a);
    assert(word_end(s, a, true) is None);
    assert(comparison_at(s, a) == Parsed::<Cond>::Fail(a, Expected::Operand));
    assert(both_at(s, a) == Parsed::<Cond>::Fail(a, Expected::Operand));
}

/// A script that begins with an `if` whose condition is refused is refused
/// there.
proof fn lemma_if_refused(l: Layout, s: Seq<char>, at: int, expected: Expected)
    requires
        l.wf(),
        s.len() > 0,
        in_class(Class::Bare, s[0]),
        run_end(s, 0, Class::Bare) == l.keyword.len(),
        l.keyword.len() <= s.len(),
        s.subrange(0, l.keyword.len() as int) == l.keyword,
        condition_at(s, run_end(s, l.keyword.len() as int, Class::Blank))
            == Parsed::<Cond>::Fail(at, expected),
    ensures
        script_of(s) == Parsed::<Seq<Statement>>::Fail(at, expected),
{
    assert(statement_at(s, 0) == Parsed::<Statement>::Fail(at, expected));
    lemma_refused(s, at, expected);
}

/// An `if` without a block on the same line is refused where the block should
/// be.
pub proof fn law_if_without_block(l: Layout, cond: Cond, rest: Seq<char>)
    requires
        l.wf(),
        is_layered(cond),
        rest.len() > 0 ==> is_break(rest[0]) || rest[0] == '}',
    ensures
        ({
            let head = l.keyword + (l.space + (cond_text(l, cond) + l.pad));
            let s = l.keyword + (l.space + (cond_text(l, cond) + (l.pad + rest)));
            script_of(s) == Parsed::<Seq<Statement>>::Fail(head.len() as int, Expected::Block)
        }),
{
    let k = l.keyword.len() as int;
    let a = k + l.space.len();
    let c = cond_text(l, cond);
    let e = a + c.len();
    let q = e + l.pad.len();
    let s = l.keyword + (l.space + (c + (l.pad + rest)));
    lemma_if_starts(l, s, c + (l.pad + rest));
    lemma_stands_split(s, a, c, l.pad + rest);
    lemma_stands_split(s, e, l.pad, rest);
    lemma_cond_starts(l, s, a, cond);
    lemma_run_over(s, k, l.space, Class::Blank);
    if rest.len() > 0 {
        lemma_stands_index(s, q, rest, 0);
    }
    lemma_cond_stops(l, s, e);
    lemma_layered(l, s, a, cond);
    lemma_condition_done(s, cond, e);
    assert(block_at(s, q) == Parsed::<Seq<Statement>>::Fail(q, Expected::Block));
    lemma_block_missing(l, s, cond, a, e, q);
    lemma_refused(s, q, Expected::Block);
}

/// Behind padding and then a break, a closing brace or the end a condition is
/// over.
proof fn lemma_cond_stops(l: Layout, s: Seq<char>, e: int)
    requires
        l.wf(),
        stands(s, e, l.pad),
        ({
            let q = e + l.pad.len();
            q < s.len() ==> is_break(s[q]) || s[q] == '}'
        }),
    ensures
        run_end(s, e, Class::Blank) == e + l.pad.len(),
        cond_ends(s, e),
        condition_stops(s, e),
{
    lemma_run_over(s, e, l.pad, Class::Blank);
    if l.pad.len() > 0 {
        lemma_stands_index(s, e, l.pad, 0);
        assert(in_class(Class::Blank, l.pad[0]));
    }
}

/// Whether no further condition is joined at `e`.
spec fn condition_stops(s: Seq<char>, e: int) -> bool {
    let q = run_end(s, e, Class::Blank);
    !pair_at(s, q, '&', '&') && !pair_at(s, q, '|', '|')
}

proof fn lemma_condition_done(s: Seq<char>, cond: Cond, e: int)
    requires
        condition_stops(s, e),
    ensures
        condition_tail(s, cond, e) == Parsed::Done(cond, e),
{
}

proof fn lemma_block_missing(l: Layout, s: Seq<char>, cond: Cond, a: int, e: int, q: int)
    requires
        l.wf(),
        0 < l.keyword.len() <= s.len(),
        run_end(s, 0, Class::Bare) == l.keyword.len(),
        s.subrange(0, l.keyword.len() as int) == l.keyword,
        run_end(s, l.keyword.len() as int, Class::Blank) == a,
        condition_at(s, a) == Parsed::Done(cond, e),
        run_end(s, e, Class::Blank) == q,
        block_at(s, q) == Parsed::<Seq<Statement>>::Fail(q, Expected::Block),
    ensures
        statement_at(s, 0) == Parsed::<Statement>::Fail(q, Expected::Block),
{
}

/// Behind the block of an `if` the statement is over: a word on the same line
/// is refused where it stands.
pub proof fn law_word_behind_block(l: Layout, statement: Statement, rest: Seq<char>)
    requires
        l.wf(),
        statement is If,
        is_statement(statement),
        rest.len() > 0,
        in_class(Class::Bare, rest[0]) || rest[0] == '"',
    ensures
        ({
            let head = statement_text(l, statement) + l.pad;
            let s = statement_text(l, statement) + (l.pad + rest);
            script_of(s) == Parsed::<Seq<Statement>>::Fail(head.len() as int, Expected::ScriptEnd)
        }),
{
    let text = statement_text(l, statement);
    let s = text + (l.pad + rest);
    let e = text.len() as int;
    let q = e + l.pad.len();
    lemma_stands_whole(s);
    lemma_stands_split(s, 0, text, l.pad + rest);
    lemma_stands_split(s, e, l.pad, rest);
    lemma_stands_index(s, q, rest, 0);
    lemma_run_over(s, e, l.pad, Class::Blank);
    lemma_if(l, s, 0, statement);
    lemma_run_end_is(s, 0, 0, Class::Gap);
    assert(statements_from(s, 0) == Parsed::Done(seq![statement], q));
}

/// A block without a command before it on the same line is refused.
pub proof fn law_lone_block(l: Layout, rest: Seq<char>)
    requires
        l.wf(),
    ensures
        script_of(l.inner + (seq!['{'] + rest)) == Parsed::<Seq<Statement>>::Fail(
            l.inner.len() as int,
            Expected::Statement,
        ),
{
    let s = l.inner + (seq!['{'] + rest);
    let p = l.inner.len() as int;
    lemma_stands_whole(s);
    lemma_stands_split(s, 0, l.inner, seq!['{'] + rest);
    assert(s[p] == '{');
    lemma_run_over(s, 0, l.inner, Class::Gap);
    assert(run_end(s, p, Class::Bare) == p);
    assert(statement_at(s, p) == Parsed::<Statement>::Fail(p, Expected::Statement));
}

proof fn lemma_if_starts(l: Layout, s: Seq<char>, rest: Seq<char>)
    requires
        l.wf(),
        s == l.keyword + (l.space + rest),
    ensures
        ({
            let k = l.keyword.len() as int;
            &&& run_end(s, 0, Class::Bare) == k
            &&& s.subrange(0, k) == l.keyword
            &&& stands(s, k, l.space)
            &&& stands(s, k + l.space.len(), rest)
            &&& in_class(Class::Bare, s[0])
        }),
{
    let word = l.keyword;
    let k = word.len() as int;
    lemma_stands_whole(s);
    lemma_stands_split(s, 0, word, l.space + rest);
    lemma_stands_split(s, k, l.space, rest);
    lemma_stands_index(s, k, l.space, 0);
    assert(in_class(Class::Blank, l.space[0]));
    lemma_run_over(s, 0, word, Class::Bare);
    lemma_stands_index(s, 0, word, 0);
    assert(in_class(Class::Bare, word[0]));
    lemma_stands_text(s, 0, word);
}

/// The message of a refusal says what was expected, and tells all the ways to
/// be refused apart.
pub proof fn law_messages_tell_apart(a: Expected, b: Expected)
    ensures
        a != b ==> expectation(a) != expectation(b),
        a == Expected::Statement ==> expectation(a) == "expected "@ + "statement"@,
        a == Expected::Argument ==> expectation(a) == "expected "@ + "argument"@,
        a == Expected::Operand ==> expectation(a) == "expected "@ + "operand"@,
        a == Expected::Block ==> expectation(a) == "expected "@ + "block"@,
        a == Expected::BlockEnd ==> expectation(a) == "expected "@ + "end of statement or '}'"@,
        a == Expected::ScriptEnd ==> expectation(a) == "expected "@ + "end of statement or script"@,
{
    reveal_strlit("expected ");
    reveal_strlit("statement");
    reveal_strlit("argument");
    reveal_strlit("operand");
    reveal_strlit("block");
    reveal_strlit("end of statement or '}'");
    reveal_strlit("end of statement or script");
    reveal_strlit("expected statement");
    reveal_strlit("expected argument");
    reveal_strlit("expected operand");
    reveal_strlit("expected block");
    reveal_strlit("expected end of statement or '}'");
    reveal_strlit("expected end of statement or script");
    assert("expected statement"@ =~= "expected "@ + "statement"@);
    assert("expected argument"@ =~= "expected "@ + "argument"@);
    assert("expected operand"@ =~= "expected "@ + "operand"@);
    assert("expected block"@ =~= "expected "@ + "block"@);
    assert("expected end of statement or '}'"@ =~= "expected "@ + "end of statement or '}'"@);
    assert("expected end of statement or script"@ =~= "expected "@
        + "end of statement or script"@);
}

} // verus!
