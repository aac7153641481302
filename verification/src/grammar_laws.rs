//! What holds of the grammar as a whole: which trees it gives, and that every
//! one of them can be written down.

use vstd::prelude::*;

use crate::ast::{CmpOp, Cond, Statement};
use crate::grammar::{
    arguments_from, block_at, both_at, both_tail, comparison_at, condition_at, condition_tail,
    lemma_arguments_from, lemma_both_at, lemma_comparison_at, lemma_condition_at,
    lemma_statement_at, lemma_statements_from, means_if, operand_end, operand_goes_on, operator_at,
    pair_at, quote_end, script_of, statement_at, statements_from, word_end, word_starts, Parsed,
};
use crate::quote::{escape, law_quoting, quoted, unquoted};
use crate::text::{in_class, is_break, lemma_run_end, lemma_run_end_is, lower_text, run_end, Class};

verus! {

// ---------------------------------------------------------------------------
// Where errors are
// ---------------------------------------------------------------------------

/// The place at which reading a script stops is a place in the script.
pub proof fn law_failure_place(s: Seq<char>)
    ensures
        script_of(s) matches Parsed::Fail(at, _) ==> 0 <= at <= s.len(),
        script_of(s) matches Parsed::Done(_, e) ==> e == s.len(),
{
    lemma_statements_from(s, 0);
}

// ---------------------------------------------------------------------------
// The shape of trees
// ---------------------------------------------------------------------------

/// Whether `c` is a single value or comparison.
pub open spec fn is_comparison(c: Cond) -> bool {
    c is Atom || c is Cmp
}

/// Whether `c` is made of comparisons by `&&` alone, grouped to the left.
pub open spec fn is_conjunction(c: Cond) -> bool
    decreases c,
{
    match c {
        Cond::And(l, r) => is_conjunction(*l) && is_comparison(*r),
        _ => is_comparison(c),
    }
}

/// Whether `c` is made of such conjunctions by `||`, grouped to the left.
pub open spec fn is_layered(c: Cond) -> bool
    decreases c,
{
    match c {
        Cond::Or(l, r) => is_layered(*l) && is_conjunction(*r),
        _ => is_conjunction(c),
    }
}

proof fn lemma_both_tail_shape(s: Seq<char>, left: Cond, p: int)
    requires
        0 <= p <= s.len(),
        is_conjunction(left),
    ensures
        both_tail(s, left, p) matches Parsed::Done(c, _) ==> is_conjunction(c),
    decreases s.len() - p,
{
    let q = run_end(s, p, Class::Blank);
    lemma_run_end(s, p, Class::Blank);
    if pair_at(s, q, '&', '&') {
        let r = run_end(s, q + 2, Class::Blank);
        lemma_run_end(s, q + 2, Class::Blank);
        lemma_comparison_at(s, r);
        if let Parsed::Done(right, e) = comparison_at(s, r) {
            lemma_both_tail_shape(s, Cond::And(Box::new(left), Box::new(right)), e);
        }
    }
}

proof fn lemma_both_shape(s: Seq<char>, p: int)
    requires
        0 <= p <= s.len(),
    ensures
        both_at(s, p) matches Parsed::Done(c, _) ==> is_conjunction(c),
{
    lemma_comparison_at(s, p);
    if let Parsed::Done(left, e) = comparison_at(s, p) {
        lemma_both_tail_shape(s, left, e);
    }
}

proof fn lemma_condition_tail_shape(s: Seq<char>, left: Cond, p: int)
    requires
        0 <= p <= s.len(),
        is_layered(left),
    ensures
        condition_tail(s, left, p) matches Parsed::Done(c, _) ==> is_layered(c),
    decreases s.len() - p,
{
    let q = run_end(s, p, Class::Blank);
    lemma_run_end(s, p, Class::Blank);
    if pair_at(s, q, '|', '|') {
        let r = run_end(s, q + 2, Class::Blank);
        lemma_run_end(s, q + 2, Class::Blank);
        lemma_both_at(s, r);
        lemma_both_shape(s, r);
        if let Parsed::Done(right, e) = both_at(s, r) {
            lemma_condition_tail_shape(s, Cond::Or(Box::new(left), Box::new(right)), e);
        }
    }
}

/// `||` binds looser than `&&`, which binds looser than the comparisons: in
/// the tree of a condition no `||` stands below an `&&`, and neither stands
/// below a comparison. Both group to the left.
pub proof fn law_precedence(s: Seq<char>, p: int)
    requires
        0 <= p <= s.len(),
    ensures
        condition_at(s, p) matches Parsed::Done(c, _) ==> is_layered(c),
{
    lemma_both_at(s, p);
    lemma_both_shape(s, p);
    if let Parsed::Done(left, e) = both_at(s, p) {
        lemma_conjunction_layered(left);
        lemma_condition_tail_shape(s, left, e);
    }
}

proof fn lemma_conjunction_layered(c: Cond)
    requires
        is_conjunction(c),
    ensures
        is_layered(c),
{
}

/// Whether `name` can be the name of a command other than `if`.
pub open spec fn is_name(name: Seq<char>) -> bool {
    &&& name.len() > 0
    &&& forall|i: int| 0 <= i < name.len() ==> in_class(Class::Bare, #[trigger] name[i])
    &&& !means_if(name)
}

/// Whether a statement is one that a script can have.
pub open spec fn is_statement(statement: Statement) -> bool
    decreases statement, 0int,
{
    match statement {
        Statement::If { cond, body } => is_layered(cond) && are_statements(body, 0),
        Statement::Command { name, args, block } => is_name(name) && match block {
            Some(b) => are_statements(b, 0),
            None => true,
        },
    }
}

/// Whether the statements from place `i` on are such.
pub open spec fn are_statements(list: Seq<Statement>, i: int) -> bool
    decreases list, list.len() - i,
{
    if 0 <= i < list.len() {
        is_statement(list[i]) && are_statements(list, i + 1)
    } else {
        true
    }
}

proof fn lemma_are_statements(list: Seq<Statement>, i: int)
    requires
        0 <= i,
        forall|j: int| i <= j < list.len() ==> is_statement(#[trigger] list[j]),
    ensures
        are_statements(list, i),
    decreases list.len() - i,
{
    if i < list.len() {
        assert(is_statement(list[i]));
        lemma_are_statements(list, i + 1);
    }
}

proof fn lemma_each_statement(list: Seq<Statement>, i: int, j: int)
    requires
        0 <= i <= j < list.len(),
        are_statements(list, i),
    ensures
        is_statement(list[j]),
    decreases j - i,
{
    if i < j {
        lemma_each_statement(list, i + 1, j);
    }
}

proof fn lemma_statement_shape(s: Seq<char>, p: int)
    requires
        0 <= p <= s.len(),
    ensures
        statement_at(s, p) matches Parsed::Done(st, _) ==> is_statement(st),
    decreases s.len() - p, 1int,
{
    let e = run_end(s, p, Class::Bare);
    lemma_run_end(s, p, Class::Bare);
    if p < e {
        if means_if(s.subrange(p, e)) {
            let c = run_end(s, e, Class::Blank);
            lemma_run_end(s, e, Class::Blank);
            lemma_condition_at(s, c);
            law_precedence(s, c);
            if let Parsed::Done(cond, q) = condition_at(s, c) {
                lemma_run_end(s, q, Class::Blank);
                lemma_block_shape(s, run_end(s, q, Class::Blank));
            }
        } else {
            let name = s.subrange(p, e);
            assert forall|i: int| 0 <= i < name.len() implies in_class(
                Class::Bare,
                #[trigger] name[i],
            ) by {
                assert(in_class(Class::Bare, s[p + i]));
            }
            lemma_arguments_from(s, e);
            if let Parsed::Done(args, q) = arguments_from(s, e) {
                lemma_block_shape(s, q);
            }
        }
    }
}

proof fn lemma_block_shape(s: Seq<char>, p: int)
    requires
        0 <= p <= s.len(),
    ensures
        block_at(s, p) matches Parsed::Done(list, _) ==> are_statements(list, 0),
    decreases s.len() - p, 0int,
{
    if p < s.len() && s[p] == '{' {
        lemma_statements_from(s, p + 1);
        lemma_statements_shape(s, p + 1);
    }
}

proof fn lemma_statements_shape(s: Seq<char>, p: int)
    requires
        0 <= p <= s.len(),
    ensures
        statements_from(s, p) matches Parsed::Done(list, _) ==> are_statements(list, 0),
    decreases s.len() - p, 2int,
{
    let q = run_end(s, p, Class::Gap);
    lemma_run_end(s, p, Class::Gap);
    if q < s.len() && s[q] != '}' {
        lemma_statement_at(s, q);
        lemma_statement_shape(s, q);
        if let Parsed::Done(statement, e) = statement_at(s, q) {
            lemma_run_end(s, e, Class::Blank);
            let t = run_end(s, e, Class::Blank);
            if t < s.len() && is_break(s[t]) {
                lemma_statements_shape(s, t);
                if let Parsed::Done(tail, _) = statements_from(s, t) {
                    let list = seq![statement] + tail;
                    assert forall|j: int| 0 <= j < list.len() implies is_statement(
                        #[trigger] list[j],
                    ) by {
                        if j > 0 {
                            lemma_each_statement(tail, 0, j - 1);
                            assert(list[j] == tail[j - 1]);
                        }
                    }
                    lemma_are_statements(list, 0);
                }
            } else {
                lemma_are_statements(seq![statement], 0);
            }
        }
    }
}

/// What a script is read as is made of names without blanks, breaks, braces
/// and quotes, none of which means `if`, and of conditions with the right
/// precedence.
pub proof fn law_script_shape(s: Seq<char>)
    ensures
        script_of(s) matches Parsed::Done(list, _) ==> are_statements(list, 0),
{
    lemma_statements_shape(s, 0);
}

// ---------------------------------------------------------------------------
// Writing trees down
// ---------------------------------------------------------------------------

/// The arguments from place `i` on, each quoted, with a space before it.
pub open spec fn written_args(args: Seq<Seq<char>>, i: int) -> Seq<char>
    decreases args.len() - i,
{
    if 0 <= i < args.len() {
        seq![' '] + quoted(args[i]) + written_args(args, i + 1)
    } else {
        seq![]
    }
}

/// An operator as text.
pub open spec fn written_op(op: CmpOp) -> Seq<char> {
    match op {
        CmpOp::Eq => seq!['=', '='],
        CmpOp::Ne => seq!['!', '='],
        CmpOp::Lt => seq!['<'],
        CmpOp::Le => seq!['<', '='],
        CmpOp::Gt => seq!['>'],
        CmpOp::Ge => seq!['>', '='],
    }
}

/// A condition as text, without parentheses: there are none.
pub open spec fn written_cond(c: Cond) -> Seq<char>
    decreases c,
{
    match c {
        Cond::Atom(v) => quoted(v),
        Cond::Cmp(l, op, r) => quoted(l) + written_op(op) + quoted(r),
        Cond::And(l, r) => written_cond(*l) + seq!['&', '&'] + written_cond(*r),
        Cond::Or(l, r) => written_cond(*l) + seq!['|', '|'] + written_cond(*r),
    }
}

/// A statement as text.
pub open spec fn written_statement(statement: Statement) -> Seq<char>
    decreases statement, 0int,
{
    match statement {
        Statement::If { cond, body } => seq!['i', 'f', ' '] + written_cond(cond) + seq![' ', '{']
            + written_statements(body, 0) + seq!['}'],
        Statement::Command { name, args, block } => name + written_args(args, 0) + match block {
            Some(b) => seq![' ', '{'] + written_statements(b, 0) + seq!['}'],
            None => seq![],
        },
    }
}

/// The statements from place `i` on as text, with `;` between them.
pub open spec fn written_statements(list: Seq<Statement>, i: int) -> Seq<char>
    decreases list, list.len() - i,
{
    if 0 <= i < list.len() {
        if i + 1 < list.len() {
            written_statement(list[i]) + seq![';'] + written_statements(list, i + 1)
        } else {
            written_statement(list[i])
        }
    } else {
        seq![]
    }
}

/// Whether `w` stands in `s` at `p`.
pub open spec fn stands(s: Seq<char>, p: int, w: Seq<char>) -> bool {
    &&& 0 <= p
    &&& p + w.len() <= s.len()
    &&& forall|i: int| 0 <= i < w.len() ==> #[trigger] w[i] == s[p + i]
}

pub proof fn lemma_stands_split(s: Seq<char>, p: int, a: Seq<char>, b: Seq<char>)
    requires
        stands(s, p, a + b),
    ensures
        stands(s, p, a),
        stands(s, p + a.len(), b),
{
    assert forall|i: int| 0 <= i < a.len() implies #[trigger] a[i] == s[p + i] by {
        assert((a + b)[i] == a[i]);
    }
    assert forall|i: int| 0 <= i < b.len() implies #[trigger] b[i] == s[p + a.len() + i] by {
        assert((a + b)[a.len() + i] == b[i]);
    }
}

pub proof fn lemma_stands_index(s: Seq<char>, p: int, w: Seq<char>, i: int)
    requires
        stands(s, p, w),
        0 <= i < w.len(),
    ensures
        s[p + i] == w[i],
{
}

pub proof fn lemma_stands_text(s: Seq<char>, p: int, w: Seq<char>)
    requires
        stands(s, p, w),
    ensures
        s.subrange(p, p + w.len()) == w,
{
    assert(s.subrange(p, p + w.len()) =~= w);
}

// ---------------------------------------------------------------------------
// Reading words back
// ---------------------------------------------------------------------------

proof fn lemma_escaped_end(s: Seq<char>, p: int, v: Seq<char>)
    requires
        stands(s, p, escape(v) + seq!['"']),
    ensures
        quote_end(s, p) == Some(p + escape(v).len() + 1),
    decreases v.len(),
{
    let end = seq!['"'];
    if v.len() == 0 {
        assert(escape(v) + end =~= end);
        lemma_stands_index(s, p, end, 0);
    } else {
        let tail = v.skip(1);
        if v[0] == '"' || v[0] == '\\' {
            let head = seq!['\\', v[0]];
            assert(escape(v) + end =~= head + (escape(tail) + end));
            lemma_stands_split(s, p, head, escape(tail) + end);
            lemma_stands_index(s, p, head, 0);
            lemma_escaped_end(s, p + 2, tail);
        } else {
            let head = seq![v[0]];
            assert(escape(v) + end =~= head + (escape(tail) + end));
            lemma_stands_split(s, p, head, escape(tail) + end);
            lemma_stands_index(s, p, head, 0);
            lemma_escaped_end(s, p + 1, tail);
        }
    }
}

pub proof fn lemma_quoted_word(s: Seq<char>, p: int, v: Seq<char>, in_condition: bool)
    requires
        stands(s, p, quoted(v)),
    ensures
        p < s.len(),
        s[p] == '"',
        word_end(s, p, in_condition) == Some(p + quoted(v).len()),
        unquoted(s.subrange(p, p + quoted(v).len())) == v,
{
    let open = seq!['"'];
    let rest = escape(v) + seq!['"'];
    assert(quoted(v) =~= open + rest);
    lemma_stands_split(s, p, open, rest);
    lemma_stands_index(s, p, open, 0);
    lemma_escaped_end(s, p + 1, v);
    lemma_stands_text(s, p, quoted(v));
    law_quoting(v);
}

proof fn lemma_no_run(s: Seq<char>, p: int, k: Class)
    requires
        0 <= p <= s.len(),
        p < s.len() ==> !in_class(k, s[p]),
    ensures
        run_end(s, p, k) == p,
{
}

proof fn lemma_one_run(s: Seq<char>, p: int, k: Class)
    requires
        0 <= p < s.len(),
        in_class(k, s[p]),
        p + 1 < s.len() ==> !in_class(k, s[p + 1]),
    ensures
        run_end(s, p, k) == p + 1,
{
    lemma_run_end_is(s, p, p + 1, k);
}

proof fn lemma_args_read(s: Seq<char>, p: int, args: Seq<Seq<char>>, i: int, q: int)
    requires
        0 <= i <= args.len(),
        stands(s, p, written_args(args, i)),
        q == run_end(s, p + written_args(args, i).len(), Class::Blank),
        !word_starts(s, q),
    ensures
        arguments_from(s, p) == Parsed::Done(args.skip(i), q),
    decreases args.len() - i,
{
    if i < args.len() {
        let space = seq![' '];
        let word = quoted(args[i]);
        let tail = written_args(args, i + 1);
        assert(written_args(args, i) =~= space + (word + tail));
        lemma_stands_split(s, p, space, word + tail);
        lemma_stands_index(s, p, space, 0);
        lemma_stands_split(s, p + 1, word, tail);
        lemma_quoted_word(s, p + 1, args[i], false);
        lemma_one_run(s, p, Class::Blank);
        lemma_args_read(s, p + 1 + word.len(), args, i + 1, q);
        assert(args.skip(i) =~= seq![args[i]] + args.skip(i + 1));
    } else {
        assert(args.skip(i) =~= seq![]);
    }
}

// ---------------------------------------------------------------------------
// Reading conditions back
// ---------------------------------------------------------------------------

proof fn lemma_cond_starts(c: Cond)
    ensures
        written_cond(c).len() > 0,
        written_cond(c)[0] == '"',
    decreases c,
{
    match c {
        Cond::Atom(v) => {
            assert(quoted(v)[0] == '"');
        },
        Cond::Cmp(l, op, r) => {
            assert(quoted(l)[0] == '"');
        },
        Cond::And(l, r) => {
            lemma_cond_starts(*l);
        },
        Cond::Or(l, r) => {
            lemma_cond_starts(*l);
        },
    }
}

/// What may follow a condition: no operator.
spec fn no_operator(s: Seq<char>, e: int) -> bool {
    operator_at(s, run_end(s, e, Class::Blank)) is None
}

proof fn lemma_comparison_read(s: Seq<char>, p: int, c: Cond)
    requires
        is_comparison(c),
        stands(s, p, written_cond(c)),
        no_operator(s, p + written_cond(c).len()),
    ensures
        comparison_at(s, p) == Parsed::Done(c, p + written_cond(c).len()),
{
    match c {
        Cond::Atom(v) => {
            lemma_quoted_word(s, p, v, true);
        },
        Cond::Cmp(l, op, r) => {
            let a = quoted(l);
            let o = written_op(op);
            let b = quoted(r);
            assert(written_cond(c) =~= a + (o + b));
            lemma_stands_split(s, p, a, o + b);
            let e = p + a.len();
            lemma_stands_split(s, e, o, b);
            lemma_quoted_word(s, p, l, true);
            lemma_quoted_word(s, e + o.len(), r, true);
            lemma_stands_index(s, e, o, 0);
            if o.len() == 2 {
                lemma_stands_index(s, e, o, 1);
            }
            lemma_no_run(s, e, Class::Blank);
            assert(operator_at(s, e) == Some(op));
            lemma_no_run(s, e + o.len(), Class::Blank);
        },
        _ => {},
    }
}

proof fn lemma_conjunction_read(s: Seq<char>, p: int, c: Cond)
    requires
        is_conjunction(c),
        stands(s, p, written_cond(c)),
        no_operator(s, p + written_cond(c).len()),
    ensures
        both_at(s, p) == both_tail(s, c, p + written_cond(c).len()),
    decreases c,
{
    match c {
        Cond::And(l, r) => {
            let a = written_cond(*l);
            let o = seq!['&', '&'];
            let b = written_cond(*r);
            let e = p + a.len();
            assert(written_cond(c) =~= a + (o + b));
            lemma_stands_split(s, p, a, o + b);
            lemma_stands_split(s, e, o, b);
            lemma_stands_index(s, e, o, 0);
            lemma_stands_index(s, e, o, 1);
            lemma_no_run(s, e, Class::Blank);
            assert(no_operator(s, e));
            lemma_conjunction_read(s, p, *l);
            lemma_cond_starts(*r);
            lemma_stands_index(s, e + 2, b, 0);
            lemma_no_run(s, e + 2, Class::Blank);
            lemma_comparison_read(s, e + 2, *r);
            assert(pair_at(s, e, '&', '&'));
        },
        _ => {
            lemma_comparison_read(s, p, c);
        },
    }
}

proof fn lemma_layered_read(s: Seq<char>, p: int, c: Cond)
    requires
        is_layered(c),
        stands(s, p, written_cond(c)),
        no_operator(s, p + written_cond(c).len()),
        !pair_at(s, run_end(s, p + written_cond(c).len(), Class::Blank), '&', '&'),
    ensures
        condition_at(s, p) == condition_tail(s, c, p + written_cond(c).len()),
    decreases c,
{
    match c {
        Cond::Or(l, r) => {
            let a = written_cond(*l);
            let o = seq!['|', '|'];
            let b = written_cond(*r);
            let e = p + a.len();
            assert(written_cond(c) =~= a + (o + b));
            lemma_stands_split(s, p, a, o + b);
            lemma_stands_split(s, e, o, b);
            lemma_stands_index(s, e, o, 0);
            lemma_stands_index(s, e, o, 1);
            lemma_no_run(s, e, Class::Blank);
            assert(no_operator(s, e));
            lemma_layered_read(s, p, *l);
            lemma_cond_starts(*r);
            lemma_stands_index(s, e + 2, b, 0);
            lemma_no_run(s, e + 2, Class::Blank);
            lemma_conjunction_read(s, e + 2, *r);
            assert(pair_at(s, e, '|', '|'));
            assert(both_at(s, e + 2) == Parsed::Done(*r, p + written_cond(c).len()));
        },
        _ => {
            lemma_conjunction_read(s, p, c);
            assert(both_at(s, p) == Parsed::Done(c, p + written_cond(c).len()));
        },
    }
}

// ---------------------------------------------------------------------------
// Reading statements back
// ---------------------------------------------------------------------------

/// What may follow a statement: the end, a `;` or a `}`.
spec fn closes(s: Seq<char>, e: int) -> bool {
    e == s.len() || (0 <= e < s.len() && (s[e] == ';' || s[e] == '}'))
}

/// What may follow a list of statements: the end or a `}`.
spec fn shuts(s: Seq<char>, e: int) -> bool {
    e == s.len() || (0 <= e < s.len() && s[e] == '}')
}

proof fn lemma_statement_read(s: Seq<char>, p: int, statement: Statement)
    requires
        is_statement(statement),
        stands(s, p, written_statement(statement)),
        closes(s, p + written_statement(statement).len()),
    ensures
        statement_at(s, p) == Parsed::Done(statement, p + written_statement(statement).len()),
        p < s.len(),
        !in_class(Class::Gap, s[p]),
        s[p] != '}',
    decreases statement, 1int,
{
    match statement {
        Statement::If { .. } => {
            lemma_if_read(s, p, statement);
        },
        Statement::Command { .. } => {
            lemma_command_read(s, p, statement);
        },
    }
}

proof fn lemma_if_read(s: Seq<char>, p: int, statement: Statement)
    requires
        statement is If,
        is_statement(statement),
        stands(s, p, written_statement(statement)),
    ensures
        statement_at(s, p) == Parsed::Done(statement, p + written_statement(statement).len()),
        p < s.len(),
        !in_class(Class::Gap, s[p]),
        s[p] != '}',
    decreases statement, 0int,
{
    let whole = written_statement(statement);
    let cond = statement->cond;
    let body = statement->body;
    let a = seq!['i', 'f', ' '];
    let c = written_cond(cond);
    let b = seq![' ', '{'] + written_statements(body, 0) + seq!['}'];
    assert(whole =~= a + (c + b));
    lemma_stands_split(s, p, a, c + b);
    lemma_stands_split(s, p + 3, c, b);
    assert(s[p] == 'i' && s[p + 1] == 'f' && s[p + 2] == ' ') by {
        lemma_stands_index(s, p, a, 0);
        lemma_stands_index(s, p, a, 1);
        lemma_stands_index(s, p, a, 2);
    }
    assert(s[p + 3] == '"') by {
        lemma_cond_starts(cond);
        lemma_stands_index(s, p + 3, c, 0);
    }
    let e = p + 3 + c.len();
    lemma_braced_read(s, e, body);
    lemma_layered_read(s, p + 3, cond);
    assert(condition_at(s, p + 3) == Parsed::Done(cond, e));
    lemma_if_at(s, p, cond, e, body, p + whole.len());
}

proof fn lemma_command_read(s: Seq<char>, p: int, statement: Statement)
    requires
        statement is Command,
        is_statement(statement),
        stands(s, p, written_statement(statement)),
        closes(s, p + written_statement(statement).len()),
    ensures
        statement_at(s, p) == Parsed::Done(statement, p + written_statement(statement).len()),
        p < s.len(),
        !in_class(Class::Gap, s[p]),
        s[p] != '}',
    decreases statement, 0int,
{
    let whole = written_statement(statement);
    let name = statement->name;
    let args = statement->args;
    let a = written_args(args, 0);
    let e = p + name.len();
    let f = e + a.len();
    match statement->block {
        Some(list) => {
            let b = seq![' ', '{'] + written_statements(list, 0) + seq!['}'];
            assert(whole =~= name + (a + b));
            lemma_stands_split(s, p, name, a + b);
            lemma_stands_split(s, e, a, b);
            lemma_braced_read(s, f, list);
            lemma_name_read(s, p, name, args);
            lemma_args_read(s, e, args, 0, f + 1);
            assert(args.skip(0) =~= args);
        },
        None => {
            assert(whole =~= name + a);
            lemma_stands_split(s, p, name, a);
            lemma_no_run(s, f, Class::Blank);
            lemma_name_read(s, p, name, args);
            lemma_args_read(s, e, args, 0, f);
            assert(args.skip(0) =~= args);
        },
    }
}

proof fn lemma_name_read(s: Seq<char>, p: int, name: Seq<char>, args: Seq<Seq<char>>)
    requires
        is_name(name),
        stands(s, p, name),
        stands(s, p + name.len(), written_args(args, 0)),
        ({
            let f = p + name.len() + written_args(args, 0).len();
            f < s.len() ==> !in_class(Class::Bare, s[f])
        }),
    ensures
        run_end(s, p, Class::Bare) == p + name.len(),
        s.subrange(p, p + name.len()) == name,
        in_class(Class::Bare, s[p]),
{
    let e = p + name.len();
    assert forall|i: int| p <= i < e implies in_class(Class::Bare, #[trigger] s[i]) by {
        lemma_stands_index(s, p, name, i - p);
        assert(in_class(Class::Bare, name[i - p]));
    }
    let a = written_args(args, 0);
    if args.len() > 0 {
        assert(a[0] == ' ');
        lemma_stands_index(s, e, a, 0);
    }
    lemma_run_end_is(s, p, e, Class::Bare);
    lemma_stands_text(s, p, name);
}

/// `if` means `if`.
proof fn lemma_if_word()
    ensures
        means_if(seq!['i', 'f']),
{
    let word = seq!['i', 'f'];
    assert(run_end(word, 0, Class::Slash) == 0);
    assert(lower_text(word.skip(0)) =~= word);
}

proof fn lemma_braced_read(s: Seq<char>, p: int, list: Seq<Statement>)
    requires
        are_statements(list, 0),
        stands(s, p, seq![' ', '{'] + written_statements(list, 0) + seq!['}']),
    ensures
        p + 1 < s.len(),
        s[p] == ' ',
        s[p + 1] == '{',
        run_end(s, p, Class::Blank) == p + 1,
        !word_starts(s, p + 1),
        no_operator(s, p),
        block_at(s, p + 1) == Parsed::Done(list, p + written_statements(list, 0).len() + 3),
    decreases list, list.len() + 1,
{
    let a = seq![' ', '{'];
    let w = written_statements(list, 0);
    let z = seq!['}'];
    assert(a + w + z =~= a + (w + z));
    lemma_stands_split(s, p, a, w + z);
    lemma_stands_split(s, p + 2, w, z);
    lemma_stands_index(s, p, a, 0);
    lemma_stands_index(s, p, a, 1);
    lemma_stands_index(s, p + 2 + w.len(), z, 0);
    lemma_one_run(s, p, Class::Blank);
    lemma_statements_read(s, p + 2, list, 0);
    assert(list.skip(0) =~= list);
}

proof fn lemma_statements_read(s: Seq<char>, p: int, list: Seq<Statement>, i: int)
    requires
        0 <= i <= list.len(),
        are_statements(list, i),
        stands(s, p, written_statements(list, i)),
        shuts(s, p + written_statements(list, i).len()),
    ensures
        statements_from(s, p) == Parsed::Done(
            list.skip(i),
            p + written_statements(list, i).len(),
        ),
    decreases list, list.len() - i,
{
    let whole = written_statements(list, i);
    if i == list.len() {
        lemma_no_run(s, p, Class::Gap);
        assert(list.skip(i) =~= seq![]);
    } else if i + 1 < list.len() {
        let a = written_statement(list[i]);
        let b = seq![';'];
        let c = written_statements(list, i + 1);
        assert(whole =~= a + (b + c));
        lemma_stands_split(s, p, a, b + c);
        let e = p + a.len();
        lemma_stands_split(s, e, b, c);
        lemma_stands_index(s, e, b, 0);
        lemma_statement_read(s, p, list[i]);
        lemma_no_run(s, p, Class::Gap);
        lemma_no_run(s, e, Class::Blank);
        lemma_statements_read(s, e + 1, list, i + 1);
        lemma_gap_skipped(s, e);
        assert(list.skip(i) =~= seq![list[i]] + list.skip(i + 1));
    } else {
        let e = p + whole.len();
        lemma_statement_read(s, p, list[i]);
        lemma_no_run(s, p, Class::Gap);
        lemma_no_run(s, e, Class::Blank);
        assert(list.skip(i) =~= seq![list[i]]);
    }
}

/// What separates statements can be skipped.
proof fn lemma_gap_skipped(s: Seq<char>, p: int)
    requires
        0 <= p < s.len(),
        in_class(Class::Gap, s[p]),
    ensures
        statements_from(s, p) == statements_from(s, p + 1),
{
    assert(run_end(s, p, Class::Gap) == run_end(s, p + 1, Class::Gap));
}

/// Every script can be written down: reading back what was written gives the
/// same statements, with every argument and every operand as it was,
/// whatever characters it holds.
pub proof fn law_written_script(list: Seq<Statement>)
    requires
        are_statements(list, 0),
    ensures
        script_of(written_statements(list, 0)) == Parsed::Done(
            list,
            written_statements(list, 0).len() as int,
        ),
{
    let s = written_statements(list, 0);
    lemma_statements_read(s, 0, list, 0);
    assert(list.skip(0) =~= list);
}

/// A script that can be read means the same when it is written down again.
pub proof fn law_rewritten_script(s: Seq<char>)
    ensures
        script_of(s) matches Parsed::Done(list, _) ==> script_of(written_statements(list, 0))
            == Parsed::Done(list, written_statements(list, 0).len() as int),
{
    law_script_shape(s);
    if let Parsed::Done(list, _) = script_of(s) {
        law_written_script(list);
    }
}

// ---------------------------------------------------------------------------
// Words without quotes
// ---------------------------------------------------------------------------

/// Whether `w` needs no quotes as an argument.
pub open spec fn is_bare(w: Seq<char>) -> bool {
    &&& w.len() > 0
    &&& forall|i: int| 0 <= i < w.len() ==> in_class(Class::Bare, #[trigger] w[i])
}

/// The arguments from place `i` on, each as it is, with a space before it.
pub open spec fn plain_args(args: Seq<Seq<char>>, i: int) -> Seq<char>
    decreases args.len() - i,
{
    if 0 <= i < args.len() {
        seq![' '] + args[i] + plain_args(args, i + 1)
    } else {
        seq![]
    }
}

proof fn lemma_plain_args_read(s: Seq<char>, p: int, args: Seq<Seq<char>>, i: int)
    requires
        0 <= i <= args.len(),
        forall|j: int| i <= j < args.len() ==> is_bare(#[trigger] args[j]),
        stands(s, p, plain_args(args, i)),
        p + plain_args(args, i).len() == s.len(),
    ensures
        arguments_from(s, p) == Parsed::Done(args.skip(i), s.len() as int),
    decreases args.len() - i,
{
    if i < args.len() {
        let space = seq![' '];
        let word = args[i];
        let tail = plain_args(args, i + 1);
        assert(is_bare(word));
        assert(plain_args(args, i) =~= space + (word + tail));
        lemma_stands_split(s, p, space, word + tail);
        lemma_stands_index(s, p, space, 0);
        lemma_stands_split(s, p + 1, word, tail);
        let e = p + 1 + word.len();
        assert forall|j: int| p + 1 <= j < e implies in_class(Class::Bare, #[trigger] s[j]) by {
            lemma_stands_index(s, p + 1, word, j - p - 1);
            assert(in_class(Class::Bare, word[j - p - 1]));
        }
        assert(in_class(Class::Bare, s[p + 1]));
        if i + 1 < args.len() {
            assert(tail[0] == ' ');
            lemma_stands_index(s, e, tail, 0);
        }
        lemma_run_end_is(s, p + 1, e, Class::Bare);
        lemma_one_run(s, p, Class::Blank);
        lemma_stands_text(s, p + 1, word);
        lemma_plain_args_read(s, e, args, i + 1);
        assert(args.skip(i) =~= seq![word] + args.skip(i + 1));
    } else {
        assert(args.skip(i) =~= seq![]);
    }
}

/// A command is its name and its arguments with spaces between them; what
/// needs no quotes can go without.
pub proof fn law_plain_command(name: Seq<char>, args: Seq<Seq<char>>)
    requires
        is_name(name),
        forall|j: int| 0 <= j < args.len() ==> is_bare(#[trigger] args[j]),
    ensures
        ({
            let s = name + plain_args(args, 0);
            script_of(s) == Parsed::Done(
                seq![Statement::Command { name, args, block: None }],
                s.len() as int,
            )
        }),
{
    let a = plain_args(args, 0);
    let s = name + a;
    let e = name.len() as int;
    assert(stands(s, 0, name + a));
    lemma_stands_split(s, 0, name, a);
    assert forall|i: int| 0 <= i < e implies in_class(Class::Bare, #[trigger] s[i]) by {
        assert(in_class(Class::Bare, name[i]));
    }
    assert(in_class(Class::Bare, s[0]));
    if args.len() > 0 {
        assert(a[0] == ' ');
        lemma_stands_index(s, e, a, 0);
    }
    lemma_run_end_is(s, 0, e, Class::Bare);
    assert(s.subrange(0, e) =~= name);
    lemma_plain_args_read(s, e, args, 0);
    assert(args.skip(0) =~= args);
    let statement = Statement::Command { name, args, block: None };
    assert(statement_at(s, 0) == Parsed::Done(statement, s.len() as int));
    lemma_lone_statement(s, statement);
}

/// A script of one statement.
proof fn lemma_lone_statement(s: Seq<char>, statement: Statement)
    requires
        s.len() > 0,
        in_class(Class::Bare, s[0]),
        statement_at(s, 0) == Parsed::Done(statement, s.len() as int),
    ensures
        script_of(s) == Parsed::Done(seq![statement], s.len() as int),
{
    lemma_no_run(s, 0, Class::Gap);
    lemma_no_run(s, s.len() as int, Class::Blank);
    assert(statements_from(s, 0) == Parsed::Done(seq![statement], s.len() as int));
}

/// Whether `w` needs no quotes as an operand, and holds nothing that could be
/// part of an operator.
pub open spec fn is_plain_operand(w: Seq<char>) -> bool {
    &&& is_bare(w)
    &&& forall|i: int|
        0 <= i < w.len() ==> #[trigger] w[i] != '=' && w[i] != '!' && w[i] != '<' && w[i] != '>'
            && w[i] != '&' && w[i] != '|'
}

proof fn lemma_plain_run(s: Seq<char>, p: int, w: Seq<char>, i: int)
    requires
        is_plain_operand(w),
        stands(s, p, w),
        0 <= i <= w.len(),
        p + w.len() < s.len() ==> !in_class(Class::Bare, s[p + w.len()]),
    ensures
        operand_end(s, p + i) == p + w.len(),
    decreases w.len() - i,
{
    if i < w.len() {
        lemma_stands_index(s, p, w, i);
        assert(in_class(Class::Bare, w[i]));
        assert(operand_goes_on(s, p + i));
        lemma_plain_run(s, p, w, i + 1);
    }
}

proof fn lemma_plain_operand(s: Seq<char>, p: int, w: Seq<char>)
    requires
        is_plain_operand(w),
        stands(s, p, w),
        p + w.len() < s.len() ==> !in_class(Class::Bare, s[p + w.len()]),
    ensures
        word_end(s, p, true) == Some(p + w.len()),
        unquoted(s.subrange(p, p + w.len())) == w,
        p < s.len(),
        in_class(Class::Bare, s[p]),
{
    lemma_stands_index(s, p, w, 0);
    assert(in_class(Class::Bare, w[0]));
    lemma_plain_run(s, p, w, 0);
    lemma_stands_text(s, p, w);
}

/// A comparison of two such operands, with spaces round the operator.
pub open spec fn plain_comparison(left: Seq<char>, op: CmpOp, right: Seq<char>) -> Seq<char> {
    left + seq![' '] + written_op(op) + seq![' '] + right
}

proof fn lemma_plain_comparison(
    s: Seq<char>,
    p: int,
    left: Seq<char>,
    op: CmpOp,
    right: Seq<char>,
)
    requires
        is_plain_operand(left),
        is_plain_operand(right),
        stands(s, p, plain_comparison(left, op, right)),
        ({
            let f = p + plain_comparison(left, op, right).len();
            f < s.len() ==> !in_class(Class::Bare, s[f])
        }),
    ensures
        comparison_at(s, p) == Parsed::Done(
            Cond::Cmp(left, op, right),
            p + plain_comparison(left, op, right).len(),
        ),
        in_class(Class::Bare, s[p]),
{
    let o = written_op(op);
    let space = seq![' '];
    let t3 = space + right;
    let t2 = o + t3;
    let t1 = space + t2;
    assert(plain_comparison(left, op, right) =~= left + t1);
    let e = p + left.len();
    let q = e + 1;
    let r = q + o.len() + 1;
    lemma_stands_split(s, p, left, t1);
    lemma_stands_split(s, e, space, t2);
    lemma_stands_split(s, q, o, t3);
    lemma_stands_split(s, q + o.len(), space, right);
    lemma_stands_index(s, e, space, 0);
    lemma_stands_index(s, q, o, 0);
    if o.len() == 2 {
        lemma_stands_index(s, q, o, 1);
    }
    lemma_stands_index(s, q + o.len(), space, 0);
    lemma_plain_operand(s, p, left);
    lemma_plain_operand(s, r, right);
    lemma_one_run(s, e, Class::Blank);
    lemma_one_run(s, q + o.len(), Class::Blank);
    assert(operator_at(s, q) == Some(op));
}

/// `if left op right { ... }` compares its two operands.
pub proof fn law_plain_if(left: Seq<char>, op: CmpOp, right: Seq<char>, body: Seq<Statement>)
    requires
        is_plain_operand(left),
        is_plain_operand(right),
        are_statements(body, 0),
    ensures
        ({
            let s = seq!['i', 'f', ' '] + plain_comparison(left, op, right) + (seq![' ', '{']
                + written_statements(body, 0) + seq!['}']);
            script_of(s) == Parsed::Done(
                seq![Statement::If { cond: Cond::Cmp(left, op, right), body }],
                s.len() as int,
            )
        }),
{
    let a = seq!['i', 'f', ' '];
    let c = plain_comparison(left, op, right);
    let b = seq![' ', '{'] + written_statements(body, 0) + seq!['}'];
    let s = a + c + b;
    assert(s =~= a + (c + b));
    lemma_stands_whole(s);
    lemma_plain_if_read(s, left, op, right, body);
}

pub proof fn lemma_stands_whole(s: Seq<char>)
    ensures
        stands(s, 0, s),
{
}

proof fn lemma_plain_if_read(
    s: Seq<char>,
    left: Seq<char>,
    op: CmpOp,
    right: Seq<char>,
    body: Seq<Statement>,
)
    requires
        is_plain_operand(left),
        is_plain_operand(right),
        are_statements(body, 0),
        ({
            let b = seq![' ', '{'] + written_statements(body, 0) + seq!['}'];
            let whole = seq!['i', 'f', ' '] + (plain_comparison(left, op, right) + b);
            stands(s, 0, whole) && s.len() == whole.len()
        }),
    ensures
        script_of(s) == Parsed::Done(
            seq![Statement::If { cond: Cond::Cmp(left, op, right), body }],
            s.len() as int,
        ),
{
    let a = seq!['i', 'f', ' '];
    let c = plain_comparison(left, op, right);
    let b = seq![' ', '{'] + written_statements(body, 0) + seq!['}'];
    let cond = Cond::Cmp(left, op, right);
    let f = 3 + c.len() as int;
    lemma_stands_split(s, 0, a, c + b);
    lemma_stands_split(s, 3, c, b);
    lemma_stands_index(s, 0, a, 0);
    lemma_stands_index(s, 0, a, 1);
    lemma_stands_index(s, 0, a, 2);
    lemma_braced_read(s, f, body);
    lemma_plain_comparison(s, 3, left, op, right);
    lemma_condition_ends(s, 3, cond, f);
    lemma_if_at(s, 0, cond, f, body, s.len() as int);
    lemma_lone_statement(s, Statement::If { cond, body });
}

/// A comparison with a block behind it is a whole condition.
proof fn lemma_condition_ends(s: Seq<char>, p: int, cond: Cond, f: int)
    requires
        0 <= p <= f,
        f + 1 < s.len(),
        comparison_at(s, p) == Parsed::Done(cond, f),
        run_end(s, f, Class::Blank) == f + 1,
        s[f + 1] == '{',
    ensures
        condition_at(s, p) == Parsed::Done(cond, f),
{
    assert(both_tail(s, cond, f) == Parsed::Done(cond, f));
    assert(condition_tail(s, cond, f) == Parsed::Done(cond, f));
}

/// What an `if` statement is made of.
proof fn lemma_if_at(
    s: Seq<char>,
    p: int,
    cond: Cond,
    f: int,
    body: Seq<Statement>,
    e: int,
)
    requires
        0 <= p,
        p + 3 < s.len(),
        s[p] == 'i',
        s[p + 1] == 'f',
        s[p + 2] == ' ',
        !in_class(Class::Blank, s[p + 3]),
        condition_at(s, p + 3) == Parsed::Done(cond, f),
        block_at(s, run_end(s, f, Class::Blank)) == Parsed::Done(body, e),
    ensures
        statement_at(s, p) == Parsed::Done(Statement::If { cond, body }, e),
{
    lemma_run_end_is(s, p, p + 2, Class::Bare);
    assert(s.subrange(p, p + 2) =~= seq!['i', 'f']);
    lemma_if_word();
    lemma_one_run(s, p + 2, Class::Blank);
}

} // verus!
