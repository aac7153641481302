//! Decimal numbers as text.

use vstd::prelude::*;

use crate::text::{in_class, Class};

verus! {

/// The value of a digit.
pub open spec fn digit_value(c: char) -> nat {
    if '0' <= c <= '9' {
        (c as nat - '0' as nat) as nat
    } else {
        0
    }
}

/// The number that a text of digits stands for.
pub open spec fn digits_value(s: Seq<char>) -> nat
    decreases s.len(),
{
    if s.len() == 0 {
        0
    } else {
        digits_value(s.drop_last()) * 10 + digit_value(s.last())
    }
}

/// Whether `s` holds nothing but digits.
pub open spec fn all_digits(s: Seq<char>) -> bool {
    forall|i: int| 0 <= i < s.len() ==> in_class(Class::Digit, #[trigger] s[i])
}

/// A longer text of digits stands for no smaller number.
proof fn lemma_digits_monotone(s: Seq<char>, i: int)
    requires
        0 <= i <= s.len(),
    ensures
        digits_value(s.take(i)) <= digits_value(s),
    decreases s.len(),
{
    if i < s.len() {
        assert(s.drop_last().take(i) =~= s.take(i));
        lemma_digits_monotone(s.drop_last(), i);
    } else {
        assert(s.take(i) =~= s);
    }
}

/// The number that the digits `from..to` of `v` stand for, if it is a `usize`.
pub fn digits_to_usize(v: &[char], from: usize, to: usize) -> (r: Option<usize>)
    requires
        from <= to <= v@.len(),
        all_digits(v@.subrange(from as int, to as int)),
    ensures
        r matches Some(n) ==> n == digits_value(v@.subrange(from as int, to as int)),
        r is None <==> digits_value(v@.subrange(from as int, to as int)) > usize::MAX,
{
    let ghost d = v@.subrange(from as int, to as int);
    let mut n: usize = 0;
    let mut i: usize = from;
    while i < to
        invariant
            from <= i <= to <= v@.len(),
            d == v@.subrange(from as int, to as int),
            all_digits(d),
            n == digits_value(d.take(i - from)),
        decreases to - i,
    {
        let c = v[i];
        proof {
            assert(d[i - from] == c);
            assert(in_class(Class::Digit, d[i - from]));
            assert(d.take(i + 1 - from).drop_last() =~= d.take(i - from));
            assert(d.take(i + 1 - from).last() == c);
            lemma_digits_monotone(d, i + 1 - from);
        }
        let k: usize = c as usize - '0' as usize;
        match n.checked_mul(10) {
            None => return None,
            Some(m) => match m.checked_add(k) {
                None => return None,
                Some(sum) => {
                    n = sum;
                },
            },
        }
        i = i + 1;
    }
    assert(d.take(i - from) =~= d);
    Some(n)
}

/// The port number that `s` stands for: digits, after at most one `+`, with a
/// value below 65536.
pub open spec fn port_number(s: Seq<char>) -> Option<u16> {
    let d = if s.len() > 0 && s[0] == '+' {
        s.drop_first()
    } else {
        s
    };
    if d.len() > 0 && all_digits(d) && digits_value(d) <= u16::MAX {
        Some(digits_value(d) as u16)
    } else {
        None
    }
}

/// The port number that the characters from `from` on stand for.
pub fn parse_port(v: &[char], from: usize) -> (r: Option<u16>)
    requires
        from <= v@.len(),
    ensures
        r == port_number(v@.skip(from as int)),
{
    let ghost s = v@.skip(from as int);
    let start: usize = if from < v.len() && v[from] == '+' {
        from + 1
    } else {
        from
    };
    let ghost d = v@.skip(start as int);
    assert(d =~= (if s.len() > 0 && s[0] == '+' {
        s.drop_first()
    } else {
        s
    }));
    if start >= v.len() {
        return None;
    }
    let mut i: usize = start;
    while i < v.len()
        invariant
            start <= i <= v@.len(),
            d == v@.skip(start as int),
            s == v@.skip(from as int),
            d == (if s.len() > 0 && s[0] == '+' {
                s.drop_first()
            } else {
                s
            }),
            forall|j: int| 0 <= j < i - start ==> in_class(Class::Digit, #[trigger] d[j]),
        decreases v@.len() - i,
    {
        if !Class::Digit.has(v[i]) {
            assert(!in_class(Class::Digit, d[i - start]));
            return None;
        }
        i = i + 1;
    }
    assert(v@.subrange(start as int, v@.len() as int) =~= d);
    match digits_to_usize(v, start, v.len()) {
        Some(n) => if n <= 65535 {
            Some(n as u16)
        } else {
            None
        },
        None => None,
    }
}

/// The digit with value `n`.
pub open spec fn digit_char(n: nat) -> char {
    (n + '0' as nat) as char
}

/// `n` in decimal digits, without leading zeros.
pub open spec fn decimal(n: nat) -> Seq<char>
    decreases n,
{
    if n < 10 {
        seq![digit_char(n)]
    } else {
        decimal(n / 10).push(digit_char(n % 10))
    }
}

/// Appends `n` in decimal digits.
pub fn push_decimal(out: &mut String, n: u16)
    ensures
        final(out)@ == old(out)@ + decimal(n as nat),
    decreases n,
{
    let digit = (48u8 + (n % 10) as u8) as char;
    if n >= 10 {
        push_decimal(out, n / 10);
    }
    out.push(digit);
    assert(out@ =~= old(out)@ + decimal(n as nat));
}

/// Decimal digits stand for the number they were made from.
pub proof fn lemma_decimal(n: nat)
    ensures
        decimal(n).len() > 0,
        all_digits(decimal(n)),
        digits_value(decimal(n)) == n,
    decreases n,
{
    if n < 10 {
        assert(decimal(n).drop_last() =~= seq![]);
        assert(digits_value(decimal(n).drop_last()) == 0);
    } else {
        lemma_decimal(n / 10);
        assert(decimal(n).drop_last() =~= decimal(n / 10));
    }
}

/// Reading back a port number that was written in decimal gives that number.
pub proof fn law_port_roundtrip(n: u16)
    ensures
        port_number(decimal(n as nat)) == Some(n),
{
    lemma_decimal(n as nat);
    assert(in_class(Class::Digit, decimal(n as nat)[0]));
}

/// A digit behind a number makes it ten times as large, plus the digit.
pub proof fn law_digits_in_turn(d: Seq<char>, c: char)
    requires
        '0' <= c <= '9',
    ensures
        digits_value(Seq::<char>::empty()) == 0,
        digits_value(d.push(c)) == 10 * digits_value(d) + (c as int - '0' as int),
{
    assert(d.push(c).drop_last() =~= d);
}

/// A number below ten is written as that digit, and a larger one as the
/// number of its tens with the last digit behind it.
pub proof fn law_decimal_digits(n: nat, k: nat)
    requires
        k < 10,
    ensures
        decimal(k).len() == 1,
        decimal(k)[0] as int == '0' as int + k,
        n > 0 ==> decimal(10 * n + k) == decimal(n) + decimal(k),
{
    if n > 0 {
        assert((10 * n + k) / 10 == n);
        assert((10 * n + k) % 10 == k);
        assert(decimal(10 * n + k) =~= decimal(n) + decimal(k));
    }
}

/// Any number that is written in decimal digits is read back.
pub proof fn law_decimal_roundtrip(n: nat)
    ensures
        all_digits(decimal(n)),
        digits_value(decimal(n)) == n,
{
    lemma_decimal(n);
}

/// A port number is made of digits, with at most one `+` before them, and is
/// not above 65535; nothing else is one.
pub proof fn law_port_numbers(d: Seq<char>, i: int)
    ensures
        d.len() > 0 && all_digits(d) && digits_value(d) <= 65535 ==> {
            &&& port_number(d) matches Some(n) && n == digits_value(d)
            &&& port_number(seq!['+'] + d) == port_number(d)
        },
        d.len() > 0 && all_digits(d) && digits_value(d) > 65535 ==> port_number(d) is None
            && port_number(seq!['+'] + d) is None,
        0 <= i < d.len() && !('0' <= d[i] <= '9') && (i > 0 || d[i] != '+') ==> port_number(
            d,
        ) is None,
        d.len() == 0 ==> port_number(d) is None && port_number(seq!['+']) is None,
{
    if d.len() > 0 && all_digits(d) {
        assert(in_class(Class::Digit, d[0]));
        assert((seq!['+'] + d).drop_first() =~= d);
    }
    if 0 <= i < d.len() && !('0' <= d[i] <= '9') && (i > 0 || d[i] != '+') {
        if d[0] == '+' {
            assert(d.drop_first()[i - 1] == d[i]);
            assert(!in_class(Class::Digit, d.drop_first()[i - 1]));
        } else {
            assert(!in_class(Class::Digit, d[i]));
        }
    }
    assert(seq!['+'].drop_first() =~= seq![]);
}

} // verus!
