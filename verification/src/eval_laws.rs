//! What holds of comparisons and conditions as a whole.

use vstd::prelude::*;

use crate::ast::{CmpOp, Cond};
use crate::eval::{evaluated, holds, text_less, text_order, truthy};
use crate::host::{lemma_prefix_all, lemma_prefix_index, lemma_pushed, HostEvent, NumberOrder};
use crate::subst::substituted;
use crate::text::{lower, lower_text};

verus! {

// ---------------------------------------------------------------------------
// The order of texts
// ---------------------------------------------------------------------------

/// No text comes before itself, and of two texts at most one comes before the
/// other.
pub proof fn law_text_order_strict(a: Seq<char>, b: Seq<char>)
    ensures
        !text_less(a, a),
        !(text_less(a, b) && text_less(b, a)),
    decreases a.len(),
{
    if a.len() > 0 {
        law_text_order_strict(a.skip(1), b.skip(1));
    }
}

/// Of two different texts one comes before the other.
pub proof fn law_text_order_total(a: Seq<char>, b: Seq<char>)
    ensures
        a == b || text_less(a, b) || text_less(b, a),
    decreases a.len(),
{
    if a.len() == 0 || b.len() == 0 {
        if a.len() == 0 && b.len() == 0 {
            assert(a =~= b);
        }
    } else if a[0] == b[0] {
        law_text_order_total(a.skip(1), b.skip(1));
        if a.skip(1) == b.skip(1) {
            assert(a =~= seq![a[0]] + a.skip(1));
            assert(b =~= seq![b[0]] + b.skip(1));
        }
    }
}

/// What comes before a text comes before all that come after that text.
pub proof fn law_text_order_transitive(a: Seq<char>, b: Seq<char>, c: Seq<char>)
    requires
        text_less(a, b),
        text_less(b, c),
    ensures
        text_less(a, c),
    decreases a.len(),
{
    if a.len() > 0 && a[0] == b[0] && b[0] == c[0] {
        law_text_order_transitive(a.skip(1), b.skip(1), c.skip(1));
    }
}

/// Swapping two texts turns their order round.
pub proof fn law_text_order_mirrored(a: Seq<char>, b: Seq<char>)
    ensures
        text_order(a, b) == NumberOrder::Less <==> text_order(b, a) == NumberOrder::Greater,
        text_order(a, b) == NumberOrder::Equal <==> a == b,
        text_order(a, b) != NumberOrder::Unordered,
{
    law_text_order_strict(a, b);
    law_text_order_total(a, b);
}

// ---------------------------------------------------------------------------
// Comparisons
// ---------------------------------------------------------------------------

/// `==` and `!=` are opposites of each other, whatever the two sides are as
/// numbers.
pub proof fn law_equality(
    left: Seq<char>,
    right: Seq<char>,
    numbers: Option<NumberOrder>,
    others: Option<NumberOrder>,
)
    ensures
        holds(left, CmpOp::Eq, right, numbers) <==> left == right,
        holds(left, CmpOp::Ne, right, others) <==> !holds(left, CmpOp::Eq, right, numbers),
{
}

/// Unless the two sides are numbers without an order, `<` and `>=` are
/// opposites of each other, and so are `>` and `<=`.
pub proof fn law_comparison_opposites(
    left: Seq<char>,
    right: Seq<char>,
    numbers: Option<NumberOrder>,
)
    requires
        numbers != Some(NumberOrder::Unordered),
    ensures
        holds(left, CmpOp::Lt, right, numbers) <==> !holds(left, CmpOp::Ge, right, numbers),
        holds(left, CmpOp::Gt, right, numbers) <==> !holds(left, CmpOp::Le, right, numbers),
{
}

/// Of numbers without an order no comparison holds.
pub proof fn law_unordered(left: Seq<char>, op: CmpOp, right: Seq<char>)
    requires
        op != CmpOp::Eq,
        op != CmpOp::Ne,
    ensures
        !holds(left, op, right, Some(NumberOrder::Unordered)),
{
}

// ---------------------------------------------------------------------------
// Conditions
// ---------------------------------------------------------------------------

/// Evaluating a condition asks the host for nothing but comparisons of
/// numbers, and takes back nothing of what was asked before.
pub proof fn law_condition_asks(
    cond: Cond,
    args: Seq<Seq<char>>,
    log: Seq<HostEvent>,
    t: Seq<HostEvent>,
)
    ensures
        log.is_prefix_of(evaluated(cond, args, log, t).1),
        forall|i: int|
            log.len() <= i < evaluated(cond, args, log, t).1.len() ==> (#[trigger] evaluated(
                cond,
                args,
                log,
                t,
            ).1[i]) is Compared,
    decreases cond,
{
    let end = evaluated(cond, args, log, t).1;
    match cond {
        Cond::Atom(_) => {
            assert(log.is_prefix_of(log));
        },
        Cond::Cmp(_, op, _) => {
            if op == CmpOp::Eq || op == CmpOp::Ne {
                assert(log.is_prefix_of(log));
            } else {
                lemma_pushed(log, end);
            }
        },
        Cond::And(l, r) => {
            law_condition_asks(*l, args, log, t);
            let (left, middle) = evaluated(*l, args, log, t);
            if left {
                law_condition_asks(*r, args, middle, t);
                lemma_grown(log, middle, end);
            }
        },
        Cond::Or(l, r) => {
            law_condition_asks(*l, args, log, t);
            let (left, middle) = evaluated(*l, args, log, t);
            if !left {
                law_condition_asks(*r, args, middle, t);
                lemma_grown(log, middle, end);
            }
        },
    }
}

proof fn lemma_grown(log: Seq<HostEvent>, middle: Seq<HostEvent>, end: Seq<HostEvent>)
    requires
        log.is_prefix_of(middle),
        middle.is_prefix_of(end),
        forall|i: int| log.len() <= i < middle.len() ==> (#[trigger] middle[i]) is Compared,
        forall|i: int| middle.len() <= i < end.len() ==> (#[trigger] end[i]) is Compared,
    ensures
        log.is_prefix_of(end),
        forall|i: int| log.len() <= i < end.len() ==> (#[trigger] end[i]) is Compared,
{
    lemma_prefix_all(log, middle, end);
    assert forall|i: int| log.len() <= i < end.len() implies (#[trigger] end[i]) is Compared by {
        if i < middle.len() {
            lemma_prefix_index(middle, end, i);
        }
    }
}

/// The value of `&&` is that of both sides, and the value of `||` that of
/// one of them, where evaluating the left side asks for nothing.
pub proof fn law_connectives(
    l: Cond,
    r: Cond,
    args: Seq<Seq<char>>,
    log: Seq<HostEvent>,
    t: Seq<HostEvent>,
)
    requires
        evaluated(l, args, log, t).1 == log,
    ensures
        ({
            let left = evaluated(l, args, log, t).0;
            let right = evaluated(r, args, log, t).0;
            let both = Cond::And(Box::new(l), Box::new(r));
            let either = Cond::Or(Box::new(l), Box::new(r));
            &&& evaluated(both, args, log, t).0 == (left && right)
            &&& evaluated(either, args, log, t).0 == (left || right)
        }),
{
}

// ---------------------------------------------------------------------------
// What comparisons mean
// ---------------------------------------------------------------------------

/// Of two numbers, `<` holds exactly if the left one is less, `>` exactly if
/// it is greater; `<=` and `>=` hold also if the two are equal.
pub proof fn law_numbers_compare(left: Seq<char>, right: Seq<char>, order: NumberOrder)
    ensures
        holds(left, CmpOp::Lt, right, Some(order)) <==> order == NumberOrder::Less,
        holds(left, CmpOp::Gt, right, Some(order)) <==> order == NumberOrder::Greater,
        holds(left, CmpOp::Le, right, Some(order)) <==> order == NumberOrder::Less || order
            == NumberOrder::Equal,
        holds(left, CmpOp::Ge, right, Some(order)) <==> order == NumberOrder::Greater || order
            == NumberOrder::Equal,
{
}

/// Where two texts first differ, the one with the smaller character comes
/// first; a text comes before all that it is a beginning of.
pub proof fn law_text_order_by_first_difference(a: Seq<char>, b: Seq<char>, i: int)
    requires
        0 <= i <= a.len(),
        i <= b.len(),
        a.take(i) == b.take(i),
    ensures
        i < a.len() && i < b.len() && a[i] != b[i] ==> (text_less(a, b) <==> a[i] < b[i]),
        i == a.len() && i < b.len() ==> text_less(a, b),
        i == b.len() ==> !text_less(a, b),
    decreases i,
{
    if i > 0 {
        assert(a.take(i)[0] == a[0]);
        assert(b.take(i)[0] == b[0]);
        assert(a.skip(1).take(i - 1) =~= a.take(i).skip(1));
        assert(b.skip(1).take(i - 1) =~= b.take(i).skip(1));
        law_text_order_by_first_difference(a.skip(1), b.skip(1), i - 1);
    }
}

/// Texts that are not both numbers are compared by that order.
pub proof fn law_texts_compare(left: Seq<char>, right: Seq<char>)
    ensures
        holds(left, CmpOp::Lt, right, None) <==> text_less(left, right),
        holds(left, CmpOp::Gt, right, None) <==> text_less(right, left),
        holds(left, CmpOp::Le, right, None) <==> text_less(left, right) || left == right,
        holds(left, CmpOp::Ge, right, None) <==> text_less(right, left) || left == right,
{
    law_text_order_strict(left, right);
    law_text_order_total(left, right);
}

/// A lone value is false exactly if it is empty, `0`, or the letters of
/// `false` in any mixture of cases.
pub proof fn law_false_values(s: Seq<char>)
    ensures
        !truthy(s) <==> {
            ||| s.len() == 0
            ||| (s.len() == 1 && s[0] == '0')
            ||| {
                &&& s.len() == 5
                &&& s[0] == 'f' || s[0] == 'F'
                &&& s[1] == 'a' || s[1] == 'A'
                &&& s[2] == 'l' || s[2] == 'L'
                &&& s[3] == 's' || s[3] == 'S'
                &&& s[4] == 'e' || s[4] == 'E'
            }
        },
{
    reveal_strlit("false");
    let low = lower_text(s);
    if s.len() == 1 && s[0] == '0' {
        assert(s =~= seq!['0']);
    }
    if s.len() == 5 {
        assert(low[0] == lower(s[0]) && low[1] == lower(s[1]) && low[2] == lower(s[2]) && low[3]
            == lower(s[3]) && low[4] == lower(s[4]));
        if low == "false"@ {
            assert("false"@[0] == 'f' && "false"@[1] == 'a' && "false"@[2] == 'l' && "false"@[3]
                == 's' && "false"@[4] == 'e');
        } else {
            assert(!(low =~= "false"@));
        }
    } else {
        assert(low.len() == s.len());
    }
}

/// A lone value is looked at with its arguments in place, and nothing is
/// asked for.
pub proof fn law_lone_value(
    s: Seq<char>,
    args: Seq<Seq<char>>,
    log: Seq<HostEvent>,
    t: Seq<HostEvent>,
)
    ensures
        evaluated(Cond::Atom(s), args, log, t).0 <==> truthy(substituted(s, args)),
        evaluated(Cond::Atom(s), args, log, t).1 == log,
{
}

/// `==` and `!=` compare the two sides as texts with the arguments in place,
/// and nothing is asked for.
pub proof fn law_equality_evaluated(
    l: Seq<char>,
    r: Seq<char>,
    args: Seq<Seq<char>>,
    log: Seq<HostEvent>,
    t: Seq<HostEvent>,
)
    ensures
        ({
            let same = substituted(l, args) == substituted(r, args);
            &&& evaluated(Cond::Cmp(l, CmpOp::Eq, r), args, log, t) == (same, log)
            &&& evaluated(Cond::Cmp(l, CmpOp::Ne, r), args, log, t) == (!same, log)
        }),
{
}

/// The other comparisons ask once how the two sides, with the arguments in
/// place and in their order, compare as numbers. The answer decides; where
/// there is none, the order of the texts does.
pub proof fn law_order_evaluated(
    l: Seq<char>,
    op: CmpOp,
    r: Seq<char>,
    args: Seq<Seq<char>>,
    log: Seq<HostEvent>,
    t: Seq<HostEvent>,
    answer: Option<NumberOrder>,
)
    requires
        op != CmpOp::Eq,
        op != CmpOp::Ne,
        log.len() < t.len(),
        t[log.len() as int] == (HostEvent::Compared {
            left: substituted(l, args),
            right: substituted(r, args),
            order: answer,
        }),
    ensures
        evaluated(Cond::Cmp(l, op, r), args, log, t).0 <==> holds(
            substituted(l, args),
            op,
            substituted(r, args),
            answer,
        ),
        evaluated(Cond::Cmp(l, op, r), args, log, t).1 == log.push(t[log.len() as int]),
{
}

/// `&&` is false as soon as its left side is, and otherwise is its right
/// side; `||` is true as soon as its left side is, and otherwise is its right
/// side. The right side is looked at after the left one, and only if it
/// matters.
pub proof fn law_connectives_in_turn(
    l: Cond,
    r: Cond,
    args: Seq<Seq<char>>,
    log: Seq<HostEvent>,
    t: Seq<HostEvent>,
)
    ensures
        ({
            let both = Cond::And(Box::new(l), Box::new(r));
            let either = Cond::Or(Box::new(l), Box::new(r));
            let left = evaluated(l, args, log, t);
            let right = evaluated(r, args, left.1, t);
            &&& !left.0 ==> evaluated(both, args, log, t) == left
            &&& left.0 ==> evaluated(both, args, log, t) == right
            &&& left.0 ==> evaluated(either, args, log, t) == left
            &&& !left.0 ==> evaluated(either, args, log, t) == right
        }),
{
}

} // verus!
