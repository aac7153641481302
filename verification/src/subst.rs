//! Replacing `$1`, `$2`, ... by the arguments in scope.

use vstd::prelude::*;

use crate::number::{all_digits, digit_char, digits_to_usize, digits_value};
use crate::text::{chars_of, in_class, lemma_run_end, lemma_run_end_is, run_end, skip_run, Class};

verus! {

/// What stands for `$` and the digits `d`: the argument with that number,
/// counted from one; nothing where there are fewer arguments. `$0` stands for
/// itself.
pub open spec fn argument(d: Seq<char>, args: Seq<Seq<char>>) -> Seq<char> {
    let n = digits_value(d);
    if n == 0 {
        seq!['$'] + d
    } else if n <= args.len() {
        args[n - 1]
    } else {
        seq![]
    }
}

/// `s` from `p` on, with every `$N` replaced. What an argument holds is not
/// looked at again.
pub open spec fn substituted_from(s: Seq<char>, p: int, args: Seq<Seq<char>>) -> Seq<char>
    decreases s.len() - p,
{
    if p < 0 || p >= s.len() {
        seq![]
    } else {
        let e = run_end(s, p + 1, Class::Digit);
        if s[p] == '$' && e > p + 1 {
            proof {
                lemma_run_end(s, p + 1, Class::Digit);
            }
            argument(s.subrange(p + 1, e), args) + substituted_from(s, e, args)
        } else {
            seq![s[p]] + substituted_from(s, p + 1, args)
        }
    }
}

/// `s` with `$1`, `$2`, ... replaced by the arguments.
pub open spec fn substituted(s: Seq<char>, args: Seq<Seq<char>>) -> Seq<char> {
    substituted_from(s, 0, args)
}

/// Replaces `$1`, `$2`, ... in `text` with the corresponding (1-indexed)
/// entry of `args`. An index past the end of `args` becomes an empty string
/// rather than an error, so an alias can be called with fewer arguments than
/// it references.
pub fn substitute(text: &str, args: &[String]) -> (r: String)
    ensures
        r@ == substituted(text@, args.deep_view()),
{
    let v = chars_of(text);
    let ghost a = args.deep_view();
    let count: usize = args.len();
    let mut out = String::new();
    let mut p: usize = 0;
    while p < v.len()
        invariant
            p <= v@.len(),
            v@ == text@,
            a == args.deep_view(),
            count == a.len(),
            substituted(text@, a) == out@ + substituted_from(text@, p as int, a),
        decreases v@.len() - p,
    {
        let ghost before = out@;
        let c = v[p];
        let e = skip_run(v.as_slice(), p + 1, Class::Digit);
        if c == '$' && e > p + 1 {
            let ghost d = v@.subrange(p + 1, e as int);
            proof {
                lemma_run_end(v@, p + 1, Class::Digit);
                assert forall|i: int| 0 <= i < d.len() implies in_class(
                    Class::Digit,
                    #[trigger] d[i],
                ) by {
                    assert(d[i] == v@[p + 1 + i]);
                }
            }
            match digits_to_usize(v.as_slice(), p + 1, e) {
                Some(n) => {
                    if n == 0 {
                        push_between(&mut out, &v, p, e);
                        assert(v@.subrange(p as int, e as int) =~= seq!['$'] + d);
                    } else if n <= count {
                        out.append(args[n - 1].as_str());
                    }
                },
                None => {},
            }
            assert(out@ =~= before + argument(d, a));
            assert(before + (argument(d, a) + substituted_from(v@, e as int, a)) =~= out@
                + substituted_from(v@, e as int, a));
            p = e;
        } else {
            out.push(c);
            assert(before + (seq![c] + substituted_from(v@, p + 1, a)) =~= out@
                + substituted_from(v@, p + 1, a));
            p = p + 1;
        }
    }
    assert(out@ =~= substituted(text@, a));
    out
}

/// Appends the characters `from..to` of `v`.
fn push_between(out: &mut String, v: &Vec<char>, from: usize, to: usize)
    requires
        from <= to <= v@.len(),
    ensures
        final(out)@ == old(out)@ + v@.subrange(from as int, to as int),
{
    let mut i: usize = from;
    while i < to
        invariant
            from <= i <= to <= v@.len(),
            out@ == old(out)@ + v@.subrange(from as int, i as int),
        decreases to - i,
    {
        out.push(v[i]);
        assert(old(out)@ + v@.subrange(from as int, i + 1) =~= (old(out)@ + v@.subrange(
            from as int,
            i as int,
        )).push(v@[i as int]));
        i = i + 1;
    }
    assert(out@ =~= old(out)@ + v@.subrange(from as int, to as int));
}

/// Whether no `$` of `s` stands before a digit.
pub open spec fn nothing_to_replace(s: Seq<char>) -> bool {
    forall|i: int|
        0 <= i && i + 1 < s.len() && #[trigger] s[i] == '$' ==> !in_class(Class::Digit, s[i + 1])
}

proof fn lemma_nothing_replaced(s: Seq<char>, p: int, args: Seq<Seq<char>>)
    requires
        0 <= p <= s.len(),
        nothing_to_replace(s),
    ensures
        substituted_from(s, p, args) == s.skip(p),
    decreases s.len() - p,
{
    if p < s.len() {
        lemma_nothing_replaced(s, p + 1, args);
        assert(s.skip(p) =~= seq![s[p]] + s.skip(p + 1));
    } else {
        assert(s.skip(p) =~= seq![]);
    }
}

/// A text in which no `$` stands before a digit is left as it is.
pub proof fn law_nothing_to_replace(s: Seq<char>, args: Seq<Seq<char>>)
    requires
        nothing_to_replace(s),
    ensures
        substituted(s, args) == s,
{
    lemma_nothing_replaced(s, 0, args);
    assert(s.skip(0) =~= s);
}

proof fn lemma_shifted(a: Seq<char>, b: Seq<char>, p: int, args: Seq<Seq<char>>)
    requires
        0 <= p <= b.len(),
    ensures
        substituted_from(a + b, a.len() + p, args) == substituted_from(b, p, args),
    decreases b.len() - p,
{
    let s = a + b;
    let n = a.len() as int;
    if p < b.len() {
        assert(s[n + p] == b[p]);
        let e = run_end(b, p + 1, Class::Digit);
        lemma_run_end(b, p + 1, Class::Digit);
        assert forall|i: int| n + p + 1 <= i < n + e implies in_class(
            Class::Digit,
            #[trigger] s[i],
        ) by {
            assert(s[i] == b[i - n]);
        }
        assert(e < b.len() ==> s[n + e] == b[e]);
        lemma_run_end_is(s, n + p + 1, n + e, Class::Digit);
        assert(s.subrange(n + p + 1, n + e) =~= b.subrange(p + 1, e));
        lemma_shifted(a, b, p + 1, args);
        lemma_shifted(a, b, e, args);
    }
}

proof fn lemma_in_parts(a: Seq<char>, b: Seq<char>, p: int, args: Seq<Seq<char>>)
    requires
        0 <= p <= a.len(),
        b.len() > 0 ==> !in_class(Class::Digit, b[0]),
    ensures
        substituted_from(a + b, p, args) == substituted_from(a, p, args) + substituted(b, args),
    decreases a.len() - p,
{
    let s = a + b;
    let n = a.len() as int;
    if p < n {
        assert(s[p] == a[p]);
        let e = run_end(a, p + 1, Class::Digit);
        lemma_run_end(a, p + 1, Class::Digit);
        assert forall|i: int| p + 1 <= i < e implies in_class(Class::Digit, #[trigger] s[i]) by {
            assert(s[i] == a[i]);
        }
        assert(e < n ==> s[e] == a[e]);
        assert(e == n && b.len() > 0 ==> s[e] == b[0]);
        lemma_run_end_is(s, p + 1, e, Class::Digit);
        assert(s.subrange(p + 1, e) =~= a.subrange(p + 1, e));
        lemma_in_parts(a, b, p + 1, args);
        lemma_in_parts(a, b, e, args);
        assert(substituted_from(s, p, args) =~= substituted_from(a, p, args) + substituted(
            b,
            args,
        ));
    } else {
        lemma_shifted(a, b, 0, args);
        assert(substituted_from(a, p, args) =~= seq![]);
        assert(substituted_from(s, p, args) =~= substituted_from(a, p, args) + substituted(
            b,
            args,
        ));
    }
}

/// A text can be replaced in parts, unless the cut is before a digit.
pub proof fn law_substitute_in_parts(a: Seq<char>, b: Seq<char>, args: Seq<Seq<char>>)
    requires
        b.len() > 0 ==> !in_class(Class::Digit, b[0]),
    ensures
        substituted(a + b, args) == substituted(a, args) + substituted(b, args),
{
    lemma_in_parts(a, b, 0, args);
}

/// `$N` alone becomes the argument with that number, or nothing where there
/// are fewer arguments.
pub proof fn law_single_argument(d: Seq<char>, args: Seq<Seq<char>>)
    requires
        all_digits(d),
        digits_value(d) >= 1,
    ensures
        substituted(seq!['$'] + d, args) == (if digits_value(d) <= args.len() {
            args[digits_value(d) - 1]
        } else {
            seq![]
        }),
{
    let s = seq!['$'] + d;
    assert forall|i: int| 1 <= i < s.len() implies in_class(Class::Digit, #[trigger] s[i]) by {
        assert(s[i] == d[i - 1]);
    }
    lemma_run_end_is(s, 1, s.len() as int, Class::Digit);
    assert(s.subrange(1, s.len() as int) =~= d);
    assert(substituted_from(s, s.len() as int, args) =~= seq![]);
    assert(substituted(s, args) =~= argument(d, args));
}

/// `$` with zeros only, as `$0`, is left as it is: arguments are counted from
/// one.
pub proof fn law_no_argument_zero(d: Seq<char>, args: Seq<Seq<char>>)
    requires
        all_digits(d),
        digits_value(d) == 0,
    ensures
        substituted(seq!['$'] + d, args) == seq!['$'] + d,
{
    let s = seq!['$'] + d;
    assert forall|i: int| 1 <= i < s.len() implies in_class(Class::Digit, #[trigger] s[i]) by {
        assert(s[i] == d[i - 1]);
    }
    lemma_run_end_is(s, 1, s.len() as int, Class::Digit);
    assert(s.subrange(1, s.len() as int) =~= d);
    assert(substituted_from(s, s.len() as int, args) =~= seq![]);
    if d.len() == 0 {
        assert(s =~= seq!['$']);
        assert(substituted_from(s, 1, args) =~= seq![]);
        assert(substituted(s, args) =~= s);
    } else {
        assert(substituted(s, args) =~= s);
    }
}

/// `$1` to `$9` between other texts become the argument, whole and as it is,
/// whatever it holds.
pub proof fn law_argument_in_text(
    before: Seq<char>,
    n: nat,
    behind: Seq<char>,
    args: Seq<Seq<char>>,
)
    requires
        1 <= n <= 9,
        n <= args.len(),
        nothing_to_replace(before),
        nothing_to_replace(behind),
        behind.len() > 0 ==> !in_class(Class::Digit, behind[0]),
    ensures
        substituted(before + seq!['$', digit_char(n)] + behind, args) == before + args[n - 1]
            + behind,
{
    let d = seq![digit_char(n)];
    assert(in_class(Class::Digit, d[0]));
    assert(d.drop_last() =~= seq![]);
    assert(digits_value(d.drop_last()) == 0);
    assert(digits_value(d) == n);
    let call = seq!['$', digit_char(n)];
    assert(call =~= seq!['$'] + d);
    law_single_argument(d, args);
    law_substitute_in_parts(before, call, args);
    law_substitute_in_parts(before + call, behind, args);
    law_nothing_to_replace(before, args);
    law_nothing_to_replace(behind, args);
}

} // verus!
