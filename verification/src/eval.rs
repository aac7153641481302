//! Evaluating `if` conditions.

use vstd::prelude::*;

use crate::ast::{CmpOp, Cond, Expr};
use crate::host::{
    all_answered, lemma_answered_all, lemma_prefix_all, lemma_prefix_index, lemma_pushed,
    number_reply, CommandHost, HostEvent, NumberOrder,
};
use crate::subst::{substitute, substituted};
use crate::text::{chars_of, lower_text, lowercase, same_text};

verus! {

/// Whether `left` comes before `right` in the order of their characters.
pub open spec fn text_less(left: Seq<char>, right: Seq<char>) -> bool
    decreases left.len(),
{
    if right.len() == 0 {
        false
    } else if left.len() == 0 {
        true
    } else if left[0] != right[0] {
        left[0] < right[0]
    } else {
        text_less(left.skip(1), right.skip(1))
    }
}

/// How two texts compare, character by character.
pub open spec fn text_order(left: Seq<char>, right: Seq<char>) -> NumberOrder {
    if left == right {
        NumberOrder::Equal
    } else if text_less(left, right) {
        NumberOrder::Less
    } else {
        NumberOrder::Greater
    }
}

/// Whether two values in the given order satisfy the operator.
pub open spec fn satisfies(order: NumberOrder, op: CmpOp) -> bool {
    match op {
        CmpOp::Lt => order == NumberOrder::Less,
        CmpOp::Le => order == NumberOrder::Less || order == NumberOrder::Equal,
        CmpOp::Gt => order == NumberOrder::Greater,
        CmpOp::Ge => order == NumberOrder::Greater || order == NumberOrder::Equal,
        CmpOp::Eq => order == NumberOrder::Equal,
        CmpOp::Ne => order != NumberOrder::Equal,
    }
}

/// Whether `left op right` holds. `==` and `!=` compare the texts. The others
/// compare as numbers if both sides are numbers (`numbers` is then how they
/// compare), otherwise as texts.
pub open spec fn holds(
    left: Seq<char>,
    op: CmpOp,
    right: Seq<char>,
    numbers: Option<NumberOrder>,
) -> bool {
    match op {
        CmpOp::Eq => left == right,
        CmpOp::Ne => left != right,
        _ => match numbers {
            Some(order) => satisfies(order, op),
            None => satisfies(text_order(left, right), op),
        },
    }
}

/// Whether a lone value counts as true: it is not empty, not `0` and not
/// `false` in any case.
pub open spec fn truthy(s: Seq<char>) -> bool {
    s.len() > 0 && s != seq!['0'] && lower_text(s) != "false"@
}

/// The value of a condition with `args` in scope, and the host's log after
/// it, where the host answers as the transcript `t` says. The right side of
/// `&&` and `||` is looked at only if the left side does not decide.
pub open spec fn evaluated(
    cond: Cond,
    args: Seq<Seq<char>>,
    log: Seq<HostEvent>,
    t: Seq<HostEvent>,
) -> (bool, Seq<HostEvent>)
    decreases cond,
{
    match cond {
        Cond::Atom(s) => (truthy(substituted(s, args)), log),
        Cond::Cmp(l, op, r) => {
            let left = substituted(l, args);
            let right = substituted(r, args);
            match op {
                CmpOp::Eq | CmpOp::Ne => (holds(left, op, right, None), log),
                _ => {
                    let order = number_reply(t, log.len() as int);
                    (
                        holds(left, op, right, order),
                        log.push(HostEvent::Compared { left, right, order }),
                    )
                },
            }
        },
        Cond::And(l, r) => {
            let (left, log) = evaluated(*l, args, log, t);
            if left {
                evaluated(*r, args, log, t)
            } else {
                (false, log)
            }
        },
        Cond::Or(l, r) => {
            let (left, log) = evaluated(*l, args, log, t);
            if left {
                (true, log)
            } else {
                evaluated(*r, args, log, t)
            }
        },
    }
}

/// How two texts compare, character by character.
pub fn order_texts(left: &str, right: &str) -> (r: NumberOrder)
    ensures
        r == text_order(left@, right@),
{
    let v = chars_of(left);
    let w = chars_of(right);
    let mut i: usize = 0;
    assert(v@.skip(0) =~= v@);
    assert(w@.skip(0) =~= w@);
    while i < v.len() && i < w.len() && v[i] == w[i]
        invariant
            i <= v@.len(),
            i <= w@.len(),
            v@ == left@,
            w@ == right@,
            v@.take(i as int) == w@.take(i as int),
            text_less(v@, w@) == text_less(v@.skip(i as int), w@.skip(i as int)),
        decreases v@.len() - i,
    {
        assert(v@.take(i + 1) =~= v@.take(i as int).push(v@[i as int]));
        assert(w@.take(i + 1) =~= w@.take(i as int).push(w@[i as int]));
        assert(v@.skip(i as int).skip(1) =~= v@.skip(i + 1));
        assert(w@.skip(i as int).skip(1) =~= w@.skip(i + 1));
        i = i + 1;
    }
    proof {
        if v@ == w@ {
            assert(v@.skip(i as int) =~= w@.skip(i as int));
        }
        if i == v@.len() && i == w@.len() {
            assert(v@.take(i as int) =~= v@);
            assert(w@.take(i as int) =~= w@);
        }
    }
    if i < w.len() {
        if i < v.len() {
            assert(v@[i as int] != w@[i as int]);
            if v[i] < w[i] {
                NumberOrder::Less
            } else {
                NumberOrder::Greater
            }
        } else {
            NumberOrder::Less
        }
    } else if i < v.len() {
        NumberOrder::Greater
    } else {
        NumberOrder::Equal
    }
}

/// Whether two values in the given order satisfy the operator.
pub fn compare(order: NumberOrder, op: CmpOp) -> (r: bool)
    ensures
        r == satisfies(order, op),
{
    match op {
        CmpOp::Lt => order == NumberOrder::Less,
        CmpOp::Le => order == NumberOrder::Less || order == NumberOrder::Equal,
        CmpOp::Gt => order == NumberOrder::Greater,
        CmpOp::Ge => order == NumberOrder::Greater || order == NumberOrder::Equal,
        CmpOp::Eq => order == NumberOrder::Equal,
        CmpOp::Ne => order != NumberOrder::Equal,
    }
}

/// Whether `left op right` holds, where `numbers` is how the two sides
/// compare as numbers, if both are numbers.
pub fn decide(left: &str, op: CmpOp, right: &str, numbers: Option<NumberOrder>) -> (r: bool)
    ensures
        r == holds(left@, op, right@, numbers),
{
    match op {
        CmpOp::Eq => same_text(left, right),
        CmpOp::Ne => !same_text(left, right),
        _ => match numbers {
            Some(order) => compare(order, op),
            None => compare(order_texts(left, right), op),
        },
    }
}

/// Whether a lone value counts as true.
pub fn is_truthy(s: &str) -> (r: bool)
    ensures
        r == truthy(s@),
{
    proof {
        reveal_strlit("0");
        assert("0"@ =~= seq!['0']);
    }
    !s.is_empty() && !same_text(s, "0") && !same_text(lowercase(s).as_str(), "false")
}

/// Evaluates an `if` condition against the args in scope, substituting `$N`
/// in each leaf just before comparing.
pub fn eval_expr<H: CommandHost + ?Sized>(expr: &Expr, args: &[String], host: &mut H) -> (r: bool)
    ensures
        old(host).log().is_prefix_of(final(host).log()),
        final(host).answers() == old(host).answers(),
        all_answered(old(host).answers(), final(host).log(), old(host).log().len()),
        forall|t: Seq<HostEvent>|
            final(host).log().is_prefix_of(t) ==> #[trigger] evaluated(
                expr@,
                args.deep_view(),
                old(host).log(),
                t,
            ) == (r, final(host).log()),
    decreases expr,
{
    let ghost a = args.deep_view();
    let ghost log0 = host.log();
    match expr {
        Expr::Atom(s) => {
            assert(log0.is_prefix_of(host.log()));
            is_truthy(substitute(s.as_str(), args).as_str())
        },
        Expr::Cmp(l, op, r) => {
            let left = substitute(l.as_str(), args);
            let right = substitute(r.as_str(), args);
            match *op {
                CmpOp::Eq | CmpOp::Ne => {
                    assert(log0.is_prefix_of(host.log()));
                    decide(left.as_str(), *op, right.as_str(), None)
                },
                _ => {
                    let numbers = host.compare_numbers(left.as_str(), right.as_str());
                    proof {
                        lemma_pushed(log0, host.log());
                        let n = log0.len() as int;
                        assert forall|t: Seq<HostEvent>|
                            host.log().is_prefix_of(t) implies t[n] == host.log()[n] by {
                            lemma_prefix_index(host.log(), t, n);
                        }
                    }
                    let r = decide(left.as_str(), *op, right.as_str(), numbers);
                    proof {
                        assert forall|t: Seq<HostEvent>|
                            host.log().is_prefix_of(t) implies #[trigger] evaluated(
                            expr@,
                            a,
                            log0,
                            t,
                        ) == (r, host.log()) by {
                        }
                    }
                    r
                },
            }
        },
        Expr::And(l, r) => {
            let left = eval_expr(l, args, host);
            if left {
                let ghost log1 = host.log();
                let right = eval_expr(r, args, host);
                proof {
                    lemma_prefix_all(log0, log1, host.log());
                    lemma_answered_all(host.answers(), log0, log1, host.log());
                    assert forall|t: Seq<HostEvent>| host.log().is_prefix_of(t) implies #[trigger]
                        evaluated(expr@, a, log0, t) == (right, host.log()) by {
                        assert(evaluated(l@, a, log0, t) == (true, log1));
                        assert(evaluated(r@, a, log1, t) == (right, host.log()));
                    }
                }
                right
            } else {
                proof {
                    let log1 = host.log();
                    assert forall|t: Seq<HostEvent>| log1.is_prefix_of(t) implies #[trigger]
                        evaluated(expr@, a, log0, t) == (false, log1) by {
                        assert(evaluated(l@, a, log0, t) == (false, log1));
                    }
                }
                false
            }
        },
        Expr::Or(l, r) => {
            let left = eval_expr(l, args, host);
            if left {
                proof {
                    let log1 = host.log();
                    assert forall|t: Seq<HostEvent>| log1.is_prefix_of(t) implies #[trigger]
                        evaluated(expr@, a, log0, t) == (true, log1) by {
                        assert(evaluated(l@, a, log0, t) == (true, log1));
                    }
                }
                true
            } else {
                let ghost log1 = host.log();
                let right = eval_expr(r, args, host);
                proof {
                    lemma_prefix_all(log0, log1, host.log());
                    lemma_answered_all(host.answers(), log0, log1, host.log());
                    assert forall|t: Seq<HostEvent>| host.log().is_prefix_of(t) implies #[trigger]
                        evaluated(expr@, a, log0, t) == (right, host.log()) by {
                        assert(evaluated(l@, a, log0, t) == (false, log1));
                        assert(evaluated(r@, a, log1, t) == (right, host.log()));
                    }
                }
                right
            }
        },
    }
}

} // verus!
