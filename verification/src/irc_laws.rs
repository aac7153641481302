//! What holds of protocol lines and connect arguments as a whole.

use vstd::prelude::*;

use crate::irc::{
    command_start, connect_target, flag_split, groups, groups_from, is_bare_address, message_of,
    numeric_code, shown, target_named, Message, Target,
};
use crate::link::{answered, is_ping, last_param, Doing};
use crate::number::{decimal, digits_value, law_port_roundtrip, lemma_decimal, port_number};
use crate::text::{
    in_class, join, last_before, lemma_pair_from_is, lemma_run_end, lemma_run_end_is, pair_from,
    run_end, run_start, trim_text, white_space, words, words_from, Class,
};
use crate::text_laws::{is_white, law_trim};

verus! {

// ---------------------------------------------------------------------------
// Words
// ---------------------------------------------------------------------------

/// Whether `w` is a word: not empty, and without white space.
pub open spec fn is_word(w: Seq<char>) -> bool {
    &&& w.len() > 0
    &&& forall|i: int| 0 <= i < w.len() ==> in_class(Class::Ink, #[trigger] w[i])
}

/// Whether all of `list` are words.
pub open spec fn are_words(list: Seq<Seq<char>>) -> bool {
    forall|i: int| 0 <= i < list.len() ==> is_word(#[trigger] list[i])
}

proof fn lemma_word_added(s: Seq<char>, w: Seq<char>, p: int)
    requires
        0 <= p <= s.len(),
        is_word(w),
    ensures
        words_from(s.push(' ') + w, p) == words_from(s, p).push(w),
    decreases s.len() - p,
{
    let t = s.push(' ') + w;
    let n = s.len() as int;
    let a = run_end(s, p, Class::White);
    lemma_run_end(s, p, Class::White);
    if a < n {
        assert forall|i: int| p <= i < a implies in_class(Class::White, #[trigger] t[i]) by {
            assert(t[i] == s[i]);
        }
        assert(t[a] == s[a]);
        lemma_run_end_is(t, p, a, Class::White);
        let b = run_end(s, a, Class::Ink);
        lemma_run_end(s, a, Class::Ink);
        assert forall|i: int| a <= i < b implies in_class(Class::Ink, #[trigger] t[i]) by {
            assert(t[i] == s[i]);
        }
        assert(b < n ==> t[b] == s[b]);
        lemma_run_end_is(t, a, b, Class::Ink);
        lemma_word_added(s, w, b);
        assert(t.subrange(a, b) =~= s.subrange(a, b));
        assert(words_from(t, p) =~= words_from(s, p).push(w));
    } else {
        assert forall|i: int| p <= i < n + 1 implies in_class(Class::White, #[trigger] t[i]) by {
            if i < n {
                assert(t[i] == s[i]);
            }
        }
        assert(t[n + 1] == w[0]);
        lemma_run_end_is(t, p, n + 1, Class::White);
        assert forall|i: int| n + 1 <= i < t.len() implies in_class(Class::Ink, #[trigger] t[i]) by {
            assert(t[i] == w[i - n - 1]);
        }
        lemma_run_end_is(t, n + 1, t.len() as int, Class::Ink);
        assert(t.subrange(n + 1, t.len() as int) =~= w);
        assert(words_from(t, t.len() as int) =~= seq![]);
        assert(words_from(t, p) =~= words_from(s, p).push(w));
    }
}

/// The words of joined words are those words.
pub proof fn law_words_of_join(list: Seq<Seq<char>>)
    requires
        are_words(list),
    ensures
        words(join(list)) == list,
    decreases list.len(),
{
    if list.len() == 0 {
        assert(words(join(list)) =~= list);
    } else if list.len() == 1 {
        let w = list[0];
        lemma_run_end_is(w, 0, 0, Class::White);
        lemma_run_end_is(w, 0, w.len() as int, Class::Ink);
        assert(w.subrange(0, w.len() as int) =~= w);
        assert(words_from(w, w.len() as int) =~= seq![]);
        assert(words(w) =~= list);
    } else {
        let shorter = list.drop_last();
        assert forall|i: int| 0 <= i < shorter.len() implies is_word(#[trigger] shorter[i]) by {
            assert(shorter[i] == list[i]);
        }
        law_words_of_join(shorter);
        assert(is_word(list[list.len() - 1]));
        lemma_word_added(join(shorter), list.last(), 0);
        assert(words(join(list)) =~= list);
    }
}

// ---------------------------------------------------------------------------
// Messages
// ---------------------------------------------------------------------------

/// Whether `w` can be a parameter before the last.
pub open spec fn is_middle(w: Seq<char>) -> bool {
    is_word(w) && w[0] != ':'
}

/// Whether a message has a prefix and a command that a line can hold.
pub open spec fn has_sound_head(m: Message) -> bool {
    &&& is_word(m.command)
    &&& match m.prefix {
        Some(prefix) => !prefix.contains(' '),
        None => m.command[0] != ':',
    }
}

/// The command with the first `n` parameters, with a space between each two.
pub open spec fn head_text(m: Message, n: int) -> Seq<char> {
    join(seq![m.command] + m.params.take(n))
}

/// The prefix as it stands in a line.
pub open spec fn prefix_text(m: Message) -> Seq<char> {
    match m.prefix {
        Some(prefix) => seq![':'] + prefix + seq![' '],
        None => seq![],
    }
}

/// The line in which the last parameter is the trailing one.
pub open spec fn trailing_line(m: Message) -> Seq<char> {
    prefix_text(m) + head_text(m, m.params.len() - 1) + seq![' ', ':'] + m.params.last()
}

/// The line without a trailing parameter.
pub open spec fn plain_line(m: Message) -> Seq<char> {
    prefix_text(m) + head_text(m, m.params.len() as int)
}

/// Whether every space of `s` stands between two characters, the second of
/// which is no colon.
spec fn no_trailing(s: Seq<char>) -> bool {
    forall|i: int| 0 <= i < s.len() && #[trigger] s[i] == ' ' ==> i + 1 < s.len() && s[i + 1] != ':'
}

proof fn lemma_join_no_trailing(list: Seq<Seq<char>>)
    requires
        list.len() > 0,
        is_word(list[0]),
        forall|i: int| 1 <= i < list.len() ==> is_middle(#[trigger] list[i]),
    ensures
        join(list).len() > 0,
        join(list)[0] == list[0][0],
        no_trailing(join(list)),
    decreases list.len(),
{
    let s = join(list);
    if list.len() == 1 {
        assert forall|i: int| 0 <= i < s.len() implies #[trigger] s[i] != ' ' by {
            assert(in_class(Class::Ink, list[0][i]));
        }
    } else {
        let shorter = list.drop_last();
        assert forall|i: int| 1 <= i < shorter.len() implies is_middle(#[trigger] shorter[i]) by {
            assert(shorter[i] == list[i]);
        }
        lemma_join_no_trailing(shorter);
        let a = join(shorter);
        let w = list.last();
        assert(is_middle(list[list.len() - 1]));
        assert forall|i: int| 0 <= i < s.len() && #[trigger] s[i] == ' ' implies i + 1 < s.len() && s[i
            + 1] != ':' by {
            if i < a.len() {
                assert(a[i] == ' ');
                assert(s[i + 1] == a[i + 1]);
            } else if i == a.len() {
                assert(s[i + 1] == w[0]);
            } else {
                assert(s[i] == w[i - a.len() - 1]);
                assert(in_class(Class::Ink, w[i - a.len() - 1]));
            }
        }
    }
}

proof fn lemma_no_pair(s: Seq<char>, p: int)
    requires
        0 <= p,
        no_trailing(s),
    ensures
        pair_from(s, p, ' ', ':') is None,
    decreases s.len() - p,
{
    if p + 1 < s.len() {
        assert(!(s[p] == ' ' && s[p + 1] == ':'));
        lemma_no_pair(s, p + 1);
    }
}

proof fn lemma_head(m: Message, body: Seq<char>)
    requires
        has_sound_head(m),
        body.len() > 0,
        body[0] == m.command[0],
    ensures
        ({
            let line = prefix_text(m) + body;
            let start = command_start(line);
            &&& 0 <= start <= line.len()
            &&& line.skip(start) == body
            &&& (line.len() > 0 && line[0] == ':') == (m.prefix is Some)
            &&& m.prefix matches Some(prefix) ==> line.subrange(
                1,
                run_end(line, 1, Class::Unspaced),
            ) == prefix
        }),
{
    let line = prefix_text(m) + body;
    match m.prefix {
        Some(prefix) => {
            let e = 1 + prefix.len() as int;
            assert(line[0] == ':');
            assert forall|i: int| 1 <= i < e implies in_class(Class::Unspaced, #[trigger] line[i]) by {
                assert(line[i] == prefix[i - 1]);
            }
            assert(line[e] == ' ');
            lemma_run_end_is(line, 1, e, Class::Unspaced);
            assert(line.skip(e + 1) =~= body);
            assert(line.subrange(1, e) =~= prefix);
        },
        None => {
            assert(line =~= body);
            assert(line.skip(0) =~= body);
        },
    }
}

/// A line that was put together from a message is read as that message: the
/// last parameter may hold anything, the others must be words that do not
/// begin with a colon.
pub proof fn law_trailing_line(m: Message)
    requires
        has_sound_head(m),
        m.params.len() > 0,
        forall|i: int| 0 <= i < m.params.len() - 1 ==> is_middle(#[trigger] m.params[i]),
    ensures
        message_of(trailing_line(m)) == m,
{
    let n = m.params.len() - 1;
    let list = seq![m.command] + m.params.take(n);
    let head = head_text(m, n);
    let last = m.params.last();
    let body = head + seq![' ', ':'] + last;
    let line = trailing_line(m);
    assert forall|i: int| 1 <= i < list.len() implies is_middle(#[trigger] list[i]) by {
        assert(list[i] == m.params[i - 1]);
    }
    assert forall|i: int| 0 <= i < list.len() implies is_word(#[trigger] list[i]) by {
        if i > 0 {
            assert(is_middle(list[i]));
        }
    }
    lemma_join_no_trailing(list);
    law_words_of_join(list);
    assert(line =~= prefix_text(m) + body);
    assert(body[0] == head[0]);
    lemma_head(m, body);
    let at = head.len() as int;
    assert forall|i: int| 0 <= i < at implies !(#[trigger] body[i] == ' ' && body[i + 1] == ':') by {
        assert(body[i] == head[i]);
        if head[i] == ' ' {
            assert(body[i + 1] == head[i + 1]);
        }
    }
    assert(body[at] == ' ' && body[at + 1] == ':');
    lemma_pair_from_is(body, 0, ' ', ':', at);
    assert(body.take(at) =~= head);
    assert(body.skip(at + 2) =~= last);
    assert(list.skip(1) + seq![last] =~= m.params);
    assert(message_of(line) =~= m);
}

/// A line that was put together without a trailing parameter is read as the
/// message that it was made of, if all parameters are words that do not begin
/// with a colon.
pub proof fn law_plain_line(m: Message)
    requires
        has_sound_head(m),
        forall|i: int| 0 <= i < m.params.len() ==> is_middle(#[trigger] m.params[i]),
    ensures
        message_of(plain_line(m)) == m,
{
    let n = m.params.len() as int;
    assert(m.params.take(n) =~= m.params);
    let list = seq![m.command] + m.params;
    let body = head_text(m, n);
    let line = plain_line(m);
    assert forall|i: int| 1 <= i < list.len() implies is_middle(#[trigger] list[i]) by {
        assert(list[i] == m.params[i - 1]);
    }
    assert forall|i: int| 0 <= i < list.len() implies is_word(#[trigger] list[i]) by {
        if i > 0 {
            assert(is_middle(list[i]));
        }
    }
    lemma_join_no_trailing(list);
    law_words_of_join(list);
    lemma_head(m, body);
    lemma_no_pair(body, 0);
    assert(list.skip(1) + Seq::<Seq<char>>::empty() =~= m.params);
    assert(message_of(line) =~= m);
}

/// Of a numeric reply the sender and the body are shown, but not the number.
pub proof fn law_number_hidden(m: Message, other: Seq<char>)
    requires
        numeric_code(m.command) is Some,
        numeric_code(other) is Some,
    ensures
        shown(m) == shown(Message { command: other, ..m }),
{
}

/// A keepalive request is answered before anything else is done, with a line
/// that the server reads as `PONG` with the token of the request.
pub proof fn law_ping_answered(line: Seq<char>)
    requires
        is_ping(line),
    ensures
        ({
            let token = last_param(message_of(line).params);
            let command = seq!['P', 'O', 'N', 'G'];
            let pong = Message { prefix: None, command, params: seq![token] };
            &&& answered(line)[0] == Doing::Write(trailing_line(pong) + "\r\n"@)
            &&& message_of(trailing_line(pong)) == pong
        }),
{
    let token = last_param(message_of(line).params);
    let command = seq!['P', 'O', 'N', 'G'];
    let pong = Message { prefix: None, command, params: seq![token] };
    assert(is_word(command));
    law_trailing_line(pong);
    reveal_strlit("PONG :");
    assert(pong.params.take(0) =~= seq![]);
    assert(seq![command] + Seq::<Seq<char>>::empty() =~= seq![command]);
    assert(head_text(pong, 0) == command);
    assert(trailing_line(pong) =~= "PONG :"@ + token);
}

// ---------------------------------------------------------------------------
// Connect arguments
// ---------------------------------------------------------------------------

/// Whether `s` has no white space at its ends.
pub open spec fn is_trimmed(s: Seq<char>) -> bool {
    s.len() > 0 ==> !white_space(s[0]) && !white_space(s.last())
}

proof fn lemma_trimmed(s: Seq<char>)
    requires
        is_trimmed(s),
    ensures
        trim_text(s) == s,
{
    lemma_run_end_is(s, 0, 0, Class::White);
    assert(run_start(s, 0, s.len() as int, Class::White) == s.len());
    assert(s.subrange(0, s.len() as int) =~= s);
}

proof fn lemma_space_trimmed(s: Seq<char>)
    requires
        is_trimmed(s),
    ensures
        trim_text(seq![' '] + s) == s,
{
    let t = seq![' '] + s;
    assert(s.len() > 0 ==> t[1] == s[0]);
    lemma_run_end_is(t, 0, 1, Class::White);
    assert(s.len() > 0 ==> t[t.len() - 1] == s.last());
    assert(run_start(t, 1, t.len() as int, Class::White) == t.len());
    assert(t.subrange(1, t.len() as int) =~= s);
}

/// Whether `s` begins with a flag that asks for TLS.
pub open spec fn has_flag(s: Seq<char>) -> bool {
    "--tls"@.is_prefix_of(s) || "-tls"@.is_prefix_of(s)
}

proof fn lemma_flag_split(s: Seq<char>)
    requires
        is_trimmed(s),
    ensures
        s.len() > 0 ==> flag_split(trim_text("--tls "@ + s)) == (true, s),
        !has_flag(s) ==> flag_split(trim_text(s)) == (false, s),
{
    reveal_strlit("--tls");
    reveal_strlit("--tls ");
    lemma_trimmed(s);
    let t = "--tls "@ + s;
    if s.len() > 0 {
        assert(t[0] == '-');
        assert(t.last() == s.last());
        lemma_trimmed(t);
        assert(t.subrange(0, 5) =~= "--tls"@);
        assert(t.skip(5) =~= seq![' '] + s);
        lemma_space_trimmed(s);
    }
}

proof fn lemma_last_colon(s: Seq<char>, at: int, n: int)
    requires
        0 <= at < n <= s.len(),
        s[at] == ':',
        forall|i: int| at < i < n ==> #[trigger] s[i] != ':',
    ensures
        last_before(s, n, ':') == Some(at),
    decreases n,
{
    if at < n - 1 {
        assert(s[n - 1] != ':');
        lemma_last_colon(s, at, n - 1);
    }
}

proof fn lemma_no_colon(s: Seq<char>, n: int)
    requires
        0 <= n <= s.len(),
        forall|i: int| 0 <= i < n ==> #[trigger] s[i] != ':',
    ensures
        last_before(s, n, ':') is None,
    decreases n,
{
    if n > 0 {
        lemma_no_colon(s, n - 1);
    }
}

proof fn lemma_group_chars(s: Seq<char>, p: int, i: int)
    requires
        0 <= p <= i < s.len(),
        groups_from(s, p) is Some,
    ensures
        in_class(Class::Hex, s[i]) || s[i] == ':',
    decreases s.len() - p,
{
    let e = run_end(s, p, Class::Hex);
    lemma_run_end(s, p, Class::Hex);
    if i > e {
        lemma_group_chars(s, e + 1, i);
    }
}

proof fn lemma_pair_found(s: Seq<char>, p: int, a: char, b: char)
    requires
        0 <= p,
    ensures
        pair_from(s, p, a, b) matches Some(k) ==> p <= k && k + 1 < s.len() && s[k] == a && s[k + 1]
            == b,
    decreases s.len() - p,
{
    if p + 1 < s.len() && !(s[p] == a && s[p + 1] == b) {
        lemma_pair_found(s, p + 1, a, b);
    }
}

/// A bare IPv6 address holds nothing but hexadecimal digits and colons.
pub proof fn law_address_characters(s: Seq<char>, i: int)
    requires
        is_bare_address(s),
        0 <= i < s.len(),
    ensures
        in_class(Class::Hex, s[i]) || s[i] == ':',
{
    lemma_pair_found(s, 0, ':', ':');
    match pair_from(s, 0, ':', ':') {
        Some(k) => {
            let head = s.take(k);
            let tail = s.skip(k + 2);
            if i < k {
                lemma_group_chars(head, 0, i);
                assert(head[i] == s[i]);
            } else if i >= k + 2 {
                lemma_group_chars(tail, 0, i - k - 2);
                assert(tail[i - k - 2] == s[i]);
            }
        },
        None => {
            lemma_group_chars(s, 0, i);
        },
    }
}

proof fn lemma_one_colon_groups(s: Seq<char>, p: int, at: int)
    requires
        0 <= p <= s.len(),
        forall|i: int| p <= i < s.len() && #[trigger] s[i] == ':' ==> i == at,
    ensures
        groups_from(s, p) matches Some(n) ==> n <= 2,
{
    reveal_with_fuel(groups_from, 2);
    let e = run_end(s, p, Class::Hex);
    lemma_run_end(s, p, Class::Hex);
    if e < s.len() && s[e] == ':' {
        let f = run_end(s, e + 1, Class::Hex);
        lemma_run_end(s, e + 1, Class::Hex);
        if f < s.len() {
            assert(s[f] != ':');
        }
    }
}

/// A text with a single colon is no bare IPv6 address, and neither is one
/// with a character that such an address cannot hold.
pub proof fn law_no_address(s: Seq<char>, at: int)
    requires
        ({
            ||| forall|i: int| 0 <= i < s.len() && #[trigger] s[i] == ':' ==> i == at
            ||| 0 <= at < s.len() && !in_class(Class::Hex, s[at]) && s[at] != ':'
        }),
    ensures
        !is_bare_address(s),
{
    if is_bare_address(s) {
        if 0 <= at < s.len() && !in_class(Class::Hex, s[at]) && s[at] != ':' {
            law_address_characters(s, at);
        } else {
            lemma_pair_found(s, 0, ':', ':');
            if let Some(k) = pair_from(s, 0, ':', ':') {
                assert(s[k] == ':' && s[k + 1] == ':');
            }
            lemma_one_colon_groups(s, 0, at);
        }
    }
}

/// `host:port`.
pub open spec fn named(host: Seq<char>, port: u16) -> Seq<char> {
    host.push(':') + decimal(port as nat)
}

proof fn lemma_named(host: Seq<char>, port: u16, tls: bool)
    requires
        host.len() > 0 ==> !white_space(host[0]),
        !is_bare_address(named(host, port)),
    ensures
        named(host, port).len() > 0,
        is_trimmed(named(host, port)),
        target_named(named(host, port), tls) == (Target { host, port, tls }),
{
    let s = named(host, port);
    let d = decimal(port as nat);
    let at = host.len() as int;
    lemma_decimal(port as nat);
    assert(s[0] == (if host.len() > 0 {
        host[0]
    } else {
        ':'
    }));
    assert(s.last() == d.last());
    assert(in_class(Class::Digit, d[d.len() - 1]));
    assert forall|i: int| at < i < s.len() implies #[trigger] s[i] != ':' by {
        assert(s[i] == d[i - at - 1]);
        assert(in_class(Class::Digit, d[i - at - 1]));
    }
    lemma_last_colon(s, at, s.len() as int);
    assert(s.skip(at + 1) =~= d);
    assert(s.take(at) =~= host);
    law_port_roundtrip(port);
}

/// An argument with a port names that port, with TLS if the flag stands
/// before it. The host may hold colons itself, unless it makes a bare IPv6
/// address together with the port.
pub proof fn law_port_given(host: Seq<char>, port: u16)
    requires
        host.len() > 0 ==> !white_space(host[0]),
        !is_bare_address(named(host, port)),
    ensures
        connect_target("--tls "@ + named(host, port)) == Some(Target { host, port, tls: true }),
        !has_flag(named(host, port)) ==> connect_target(named(host, port)) == Some(
            Target { host, port, tls: false },
        ),
{
    lemma_named(host, port, true);
    lemma_named(host, port, false);
    lemma_flag_split(named(host, port));
}

/// An argument without a port names the port that is usual for its kind.
pub proof fn law_port_default(host: Seq<char>)
    requires
        host.len() > 0,
        is_trimmed(host),
        !host.contains(':'),
    ensures
        connect_target("--tls "@ + host) == Some(Target { host, port: 6697, tls: true }),
        !has_flag(host) ==> connect_target(host) == Some(Target { host, port: 6667, tls: false }),
{
    lemma_no_colon(host, host.len() as int);
    lemma_flag_split(host);
}

/// A host without colons, and one with a character that no IPv6 address
/// holds, such as a bracket, makes no bare IPv6 address with a port.
pub proof fn law_host_takes_port(host: Seq<char>, port: u16, at: int)
    requires
        ({
            ||| !host.contains(':')
            ||| 0 <= at < host.len() && !in_class(Class::Hex, host[at]) && host[at] != ':'
        }),
    ensures
        !is_bare_address(named(host, port)),
{
    let s = named(host, port);
    let n = host.len() as int;
    if !host.contains(':') {
        let d = decimal(port as nat);
        lemma_decimal(port as nat);
        assert forall|i: int| 0 <= i < s.len() && #[trigger] s[i] == ':' implies i == n by {
            if i < n {
                assert(s[i] == host[i]);
            } else if i > n {
                assert(s[i] == d[i - n - 1]);
                assert(in_class(Class::Digit, d[i - n - 1]));
            }
        }
        law_no_address(s, n);
    } else {
        assert(s[at] == host[at]);
        law_no_address(s, at);
    }
}

/// A bare IPv6 address is used as it is, with the usual port.
pub proof fn law_bare_address(host: Seq<char>)
    requires
        is_bare_address(host),
    ensures
        connect_target("--tls "@ + host) == Some(Target { host, port: 6697, tls: true }),
        connect_target(host) == Some(Target { host, port: 6667, tls: false }),
{
    lemma_pair_found(host, 0, ':', ':');
    assert(host.len() > 0);
    law_address_characters(host, 0);
    law_address_characters(host, host.len() - 1);
    reveal_strlit("--tls");
    reveal_strlit("-tls");
    if has_flag(host) {
        assert("--tls"@[0] == '-' && "-tls"@[0] == '-');
        assert(host.subrange(0, "--tls"@.len() as int)[0] == host[0]);
        assert(host.subrange(0, "-tls"@.len() as int)[0] == host[0]);
    }
    lemma_flag_split(host);
}

/// White space round an argument makes no difference.
pub proof fn law_argument_trimmed(arg: Seq<char>)
    ensures
        connect_target(trim_text(arg)) == connect_target(arg),
{
    let a = run_end(arg, 0, Class::White);
    lemma_run_end(arg, 0, Class::White);
    lemma_run_start(arg, a, arg.len() as int);
    lemma_trimmed(trim_text(arg));
}

proof fn lemma_run_start(s: Seq<char>, lo: int, hi: int)
    requires
        0 <= lo <= hi <= s.len(),
    ensures
        lo <= run_start(s, lo, hi, Class::White) <= hi,
        lo < run_start(s, lo, hi, Class::White) ==> !white_space(
            s[run_start(s, lo, hi, Class::White) - 1],
        ),
    decreases hi - lo,
{
    if lo < hi && white_space(s[hi - 1]) {
        lemma_run_start(s, lo, hi - 1);
    }
}

// ---------------------------------------------------------------------------
// Parts of a line
// ---------------------------------------------------------------------------

/// Whether `s` holds no space with a colon behind it.
pub open spec fn has_no_trailing(s: Seq<char>) -> bool {
    forall|i: int| 0 <= i && i + 1 < s.len() && #[trigger] s[i] == ' ' ==> s[i + 1] != ':'
}

proof fn lemma_pair_absent(s: Seq<char>, p: int)
    requires
        0 <= p,
        has_no_trailing(s),
    ensures
        pair_from(s, p, ' ', ':') is None,
    decreases s.len() - p,
{
    if p + 1 < s.len() {
        assert(!(s[p] == ' ' && s[p + 1] == ':'));
        lemma_pair_absent(s, p + 1);
    }
}

/// A `:` at the beginning of a line starts a prefix that goes up to the first
/// space; the rest of the line is read as it would be alone. A line of one
/// prefix has nothing else.
pub proof fn law_prefix_read(prefix: Seq<char>, rest: Seq<char>)
    requires
        !prefix.contains(' '),
    ensures
        rest.len() > 0 && rest[0] == ':' || message_of(seq![':'] + prefix + seq![' '] + rest) == (
            Message { prefix: Some(prefix), ..message_of(rest) }),
        message_of(seq![':'] + prefix) == (Message {
            prefix: Some(prefix),
            command: seq![],
            params: seq![],
        }),
        rest.len() > 0 && rest[0] == ':' || message_of(rest).prefix is None,
{
    let line = seq![':'] + prefix + seq![' '] + rest;
    let e = 1 + prefix.len() as int;
    assert forall|i: int| 1 <= i < e implies in_class(Class::Unspaced, #[trigger] line[i]) by {
        assert(line[i] == prefix[i - 1]);
    }
    assert(line[e] == ' ');
    lemma_run_end_is(line, 1, e, Class::Unspaced);
    assert(line.skip(e + 1) =~= rest);
    assert(line.subrange(1, e) =~= prefix);
    assert(rest.skip(0) =~= rest);
    let alone = seq![':'] + prefix;
    assert forall|i: int| 1 <= i < e implies in_class(Class::Unspaced, #[trigger] alone[i]) by {
        assert(alone[i] == prefix[i - 1]);
    }
    lemma_run_end_is(alone, 1, e, Class::Unspaced);
    assert(alone.subrange(1, e) =~= prefix);
    let none = alone.skip(e);
    assert(none =~= seq![]);
    assert(words(none) =~= seq![]) by {
        lemma_run_end_is(none, 0, 0, Class::White);
    }
    assert(message_of(alone).params =~= seq![]);
}

/// All that is behind the first ` :` of a line without a prefix is one
/// parameter, with its spaces and colons; the words before it are the command
/// and the other parameters.
pub proof fn law_trailing_read(head: Seq<char>, trailing: Seq<char>)
    requires
        has_no_trailing(head),
        head.len() > 0 ==> head[0] != ':',
    ensures
        ({
            let m = message_of(head + seq![' ', ':'] + trailing);
            let list = words(head);
            &&& m.prefix is None
            &&& m.params.len() > 0
            &&& m.params.last() == trailing
            &&& list.len() > 0 ==> seq![m.command] + m.params.drop_last() == list
            &&& list.len() == 0 ==> m.command.len() == 0 && m.params.len() == 1
        }),
{
    let line = head + seq![' ', ':'] + trailing;
    let at = head.len() as int;
    assert(line[at] == ' ' && line[at + 1] == ':');
    assert(line[0] != ':');
    assert forall|i: int| 0 <= i < at implies !(#[trigger] line[i] == ' ' && line[i + 1] == ':') by {
        assert(line[i] == head[i]);
        if i + 1 < at {
            assert(line[i + 1] == head[i + 1]);
        }
    }
    assert(line.skip(0) =~= line);
    lemma_pair_from_is(line, 0, ' ', ':', at);
    assert(line.take(at) =~= head);
    assert(line.skip(at + 2) =~= trailing);
    let m = message_of(line);
    let list = words(head);
    if list.len() > 0 {
        assert(m.params.drop_last() =~= list.skip(1));
        assert(seq![m.command] + m.params.drop_last() =~= list);
    }
}

/// A line without a prefix and without ` :` is made of its words: the first
/// is the command, the others are the parameters.
pub proof fn law_words_read(line: Seq<char>)
    requires
        has_no_trailing(line),
        line.len() > 0 ==> line[0] != ':',
    ensures
        ({
            let m = message_of(line);
            let list = words(line);
            &&& m.prefix is None
            &&& list.len() > 0 ==> seq![m.command] + m.params == list
            &&& list.len() == 0 ==> m.command.len() == 0 && m.params.len() == 0
        }),
{
    lemma_pair_absent(line, 0);
    assert(line.skip(0) =~= line);
    let m = message_of(line);
    let list = words(line);
    if list.len() > 0 {
        assert(seq![m.command] + m.params =~= list);
    }
}

// ---------------------------------------------------------------------------
// What is shown
// ---------------------------------------------------------------------------

/// A command is a number if and only if it is made of three digits, and the
/// number is what they stand for.
pub proof fn law_numeric_commands(c: Seq<char>)
    ensures
        numeric_code(c) is Some <==> c.len() == 3 && '0' <= c[0] <= '9' && '0' <= c[1] <= '9'
            && '0' <= c[2] <= '9',
        numeric_code(c) matches Some(n) ==> n == 100 * (c[0] as int - '0' as int) + 10 * (
        c[1] as int - '0' as int) + (c[2] as int - '0' as int),
{
    if c.len() == 3 {
        lemma_run_end(c, 0, Class::Digit);
        if '0' <= c[0] <= '9' && '0' <= c[1] <= '9' && '0' <= c[2] <= '9' {
            assert forall|i: int| 0 <= i < 3 implies in_class(Class::Digit, #[trigger] c[i]) by {
                assert(i == 0 || i == 1 || i == 2);
            }
            lemma_run_end_is(c, 0, 3, Class::Digit);
            let a = c.drop_last();
            let b = a.drop_last();
            assert(b.drop_last() =~= seq![]);
            assert(digits_value(b.drop_last()) == 0);
            assert(digits_value(b) == c[0] as int - '0' as int);
            assert(digits_value(a) == 10 * digits_value(b) + (c[1] as int - '0' as int));
        }
    }
}

/// What is shown of a line are the sender, the command unless it is a number,
/// and the parameters, in this order and with a space between each two.
pub proof fn law_shown_parts(sender: Seq<char>, command: Seq<char>, params: Seq<Seq<char>>)
    requires
        sender.len() > 0,
        !white_space(sender[0]),
        command.len() > 0,
        !white_space(command[0]),
        params.len() > 0,
        params[0].len() > 0,
        !white_space(params[0][0]),
        params.last().len() > 0,
        !white_space(params.last().last()),
    ensures
        ({
            let text = join(params);
            let from = Message { prefix: Some(sender), command, params };
            let bare = Message { prefix: None, command, params };
            &&& numeric_code(command) is None ==> shown(from) == sender + seq![' '] + command + seq![
                ' ',
            ] + text
            &&& numeric_code(command) is Some ==> shown(from) == sender + seq![' '] + text
            &&& numeric_code(command) is None ==> shown(bare) == command + seq![' '] + text
            &&& numeric_code(command) is Some ==> shown(bare) == text
        }),
{
    let text = join(params);
    lemma_join_ends(params);
    let none = Seq::<char>::empty();
    let from = Message { prefix: Some(sender), command, params };
    let bare = Message { prefix: None, command, params };
    if numeric_code(command) is None {
        let a = sender + seq![' '] + command + seq![' '] + text;
        let b = command + seq![' '] + text;
        assert(sender.push(' ') + command.push(' ') + text =~= a);
        assert(none + command.push(' ') + text =~= b);
        assert(a[0] == sender[0] && a.last() == text.last());
        assert(b[0] == command[0] && b.last() == text.last());
        lemma_trimmed(a);
        lemma_trimmed(b);
    } else {
        let a = sender + seq![' '] + text;
        assert(sender.push(' ') + none + text =~= a);
        assert(none + none + text =~= text);
        assert(a[0] == sender[0] && a.last() == text.last());
        lemma_trimmed(a);
        lemma_trimmed(text);
    }
}

proof fn lemma_join_ends(params: Seq<Seq<char>>)
    requires
        params.len() > 0,
        params[0].len() > 0,
        params.last().len() > 0,
    ensures
        join(params).len() > 0,
        join(params)[0] == params[0][0],
        join(params).last() == params.last().last(),
{
    lemma_join_starts(params);
    if params.len() > 1 {
        assert(join(params).last() == params.last().last());
    }
}

proof fn lemma_join_starts(params: Seq<Seq<char>>)
    requires
        params.len() > 0,
        params[0].len() > 0,
    ensures
        join(params).len() > 0,
        join(params)[0] == params[0][0],
    decreases params.len(),
{
    if params.len() > 1 {
        lemma_join_starts(params.drop_last());
    }
}

/// Of a line without parameters the sender and the command are shown, or the
/// sender alone where the command is a number. What is shown never begins or
/// ends with white space.
pub proof fn law_shown_without_parameters(sender: Seq<char>, command: Seq<char>, m: Message)
    requires
        sender.len() > 0,
        is_trimmed(sender),
        command.len() > 0,
        is_trimmed(command),
    ensures
        ({
            let from = Message { prefix: Some(sender), command, params: seq![] };
            let bare = Message { prefix: None, command, params: seq![] };
            &&& numeric_code(command) is None ==> shown(from) == sender + seq![' '] + command
            &&& numeric_code(command) is None ==> shown(bare) == command
            &&& numeric_code(command) is Some ==> shown(from) == sender
            &&& numeric_code(command) is Some ==> shown(bare).len() == 0
        }),
        is_trimmed(shown(m)),
{
    let none = Seq::<char>::empty();
    let space = seq![' '];
    assert(join(Seq::<Seq<char>>::empty()) =~= none);
    assert(is_white(none));
    assert(is_white(space));
    if numeric_code(command) is None {
        let a = sender + space + command;
        assert(sender.push(' ') + command.push(' ') + none =~= none + a + space);
        assert(none + command.push(' ') + none =~= none + command + space);
        assert(a[0] == sender[0] && a.last() == command.last());
        law_trim(none, a, space);
        law_trim(none, command, space);
    } else {
        assert(sender.push(' ') + none + none =~= none + sender + space);
        assert(none + none + none =~= none);
        law_trim(none, sender, space);
        lemma_trimmed(none);
    }
    let before = match m.prefix {
        Some(p) => p.push(' '),
        None => seq![],
    };
    let middle = if numeric_code(m.command) is Some {
        seq![]
    } else {
        m.command.push(' ')
    };
    lemma_trim_trims(before + middle + join(m.params));
}

proof fn lemma_trim_trims(s: Seq<char>)
    ensures
        is_trimmed(trim_text(s)),
{
    let a = run_end(s, 0, Class::White);
    lemma_run_end(s, 0, Class::White);
    lemma_run_start(s, a, s.len() as int);
}

// ---------------------------------------------------------------------------
// Flags, ports and addresses
// ---------------------------------------------------------------------------

/// White space of any length round the flag and round the server makes no
/// difference, and neither does which of the two flags it is. Without a
/// server there is no target.
pub proof fn law_flags(
    before: Seq<char>,
    gap: Seq<char>,
    server: Seq<char>,
    behind: Seq<char>,
)
    requires
        is_white(before),
        is_white(gap),
        is_white(behind),
        is_trimmed(server),
    ensures
        ({
            let long = before + ("--tls"@ + gap + server) + behind;
            let short = before + ("-tls"@ + gap + server) + behind;
            let plain = before + server + behind;
            &&& server.len() > 0 ==> connect_target(long) == Some(target_named(server, true))
            &&& server.len() > 0 ==> connect_target(short) == Some(target_named(server, true))
            &&& server.len() > 0 && !has_flag(server) ==> connect_target(plain) == Some(
                target_named(server, false),
            )
            &&& server.len() == 0 ==> connect_target(long) is None && connect_target(short) is None
                && connect_target(plain) is None
        }),
{
    reveal_strlit("--tls");
    reveal_strlit("-tls");
    lemma_flag_trimmed("--tls"@, before, gap, server, behind);
    lemma_flag_trimmed("-tls"@, before, gap, server, behind);
    law_trim(before, server, behind);
    let long = "--tls"@ + (if server.len() > 0 {
        gap + server
    } else {
        server
    });
    let short = "-tls"@ + (if server.len() > 0 {
        gap + server
    } else {
        server
    });
    assert(long.subrange(0, 5) =~= "--tls"@);
    assert(short.subrange(0, 4) =~= "-tls"@);
    assert(!"--tls"@.is_prefix_of(short)) by {
        if "--tls"@.is_prefix_of(short) {
            assert(short[1] == "-tls"@[1]);
            assert("--tls"@[1] == short.subrange(0, 5)[1]);
        }
    }
    if server.len() == 0 {
        if "--tls"@.is_prefix_of(server) || "-tls"@.is_prefix_of(server) {
            assert(server.len() >= 4);
        }
    }
}

/// What is left of an argument with a flag, once white space is trimmed.
proof fn lemma_flag_trimmed(
    flag: Seq<char>,
    before: Seq<char>,
    gap: Seq<char>,
    server: Seq<char>,
    behind: Seq<char>,
)
    requires
        flag.len() > 0,
        is_trimmed(flag),
        is_white(before),
        is_white(gap),
        is_white(behind),
        is_trimmed(server),
    ensures
        ({
            let rest = if server.len() > 0 {
                gap + server
            } else {
                server
            };
            &&& trim_text(before + (flag + gap + server) + behind) == flag + rest
            &&& (flag + rest).skip(flag.len() as int) == rest
            &&& trim_text(rest) == server
        }),
{
    let none = Seq::<char>::empty();
    assert(is_white(none));
    if server.len() > 0 {
        let t = flag + gap + server;
        assert(t[0] == flag[0] && t.last() == server.last());
        law_trim(before, t, behind);
        assert(t =~= flag + (gap + server));
        assert((flag + (gap + server)).skip(flag.len() as int) =~= gap + server);
        law_trim(gap, server, none);
        assert(gap + server + none =~= gap + server);
    } else {
        let white = gap + behind;
        assert forall|i: int| 0 <= i < white.len() implies white_space(#[trigger] white[i]) by {
            if i < gap.len() {
                assert(white[i] == gap[i]);
            } else {
                assert(white[i] == behind[i - gap.len()]);
            }
        }
        assert(before + (flag + gap + server) + behind =~= before + flag + white);
        law_trim(before, flag, white);
        assert(flag + server =~= flag);
        assert((flag + server).skip(flag.len() as int) =~= server);
        lemma_trimmed(server);
    }
}

/// What is behind the last colon of a server is its port if it is a port
/// number, and the host is then what is before that colon; otherwise all of
/// it is the host, and the port is the usual one.
pub proof fn law_port_behind_last_colon(host: Seq<char>, port: Seq<char>, tls: bool)
    requires
        !port.contains(':'),
        !is_bare_address(host + seq![':'] + port),
    ensures
        ({
            let server = host + seq![':'] + port;
            &&& port_number(port) matches Some(n) ==> target_named(server, tls) == (Target {
                host,
                port: n,
                tls,
            })
            &&& port_number(port) is None ==> target_named(server, tls) == (Target {
                host: server,
                port: if tls {
                    6697
                } else {
                    6667
                },
                tls,
            })
        }),
{
    let s = host + seq![':'] + port;
    let at = host.len() as int;
    assert forall|i: int| at < i < s.len() implies #[trigger] s[i] != ':' by {
        assert(s[i] == port[i - at - 1]);
        assert(port.contains(port[i - at - 1]));
    }
    assert(s[at] == ':');
    lemma_last_colon(s, at, s.len() as int);
    assert(s.skip(at + 1) =~= port);
    assert(s.take(at) =~= host);
}

/// Whether `w` is one to four hexadecimal digits.
pub open spec fn is_group(w: Seq<char>) -> bool {
    &&& 1 <= w.len() <= 4
    &&& forall|i: int| 0 <= i < w.len() ==> in_class(Class::Hex, #[trigger] w[i])
}

/// The groups with a colon between each two.
pub open spec fn colon_joined(list: Seq<Seq<char>>) -> Seq<char>
    decreases list.len(),
{
    if list.len() == 0 {
        seq![]
    } else if list.len() == 1 {
        list[0]
    } else {
        list[0] + (seq![':'] + colon_joined(list.skip(1)))
    }
}

/// Whether all of `list` are such groups.
pub open spec fn are_groups(list: Seq<Seq<char>>) -> bool {
    forall|i: int| 0 <= i < list.len() ==> is_group(#[trigger] list[i])
}

proof fn lemma_joined_groups(list: Seq<Seq<char>>)
    requires
        list.len() > 0,
        are_groups(list),
    ensures
        ({
            let s = colon_joined(list);
            &&& s.len() > 0
            &&& in_class(Class::Hex, s[0])
            &&& in_class(Class::Hex, s.last())
            &&& forall|i: int|
                0 <= i < s.len() && #[trigger] s[i] == ':' ==> i + 1 < s.len() && s[i + 1] != ':'
        }),
    decreases list.len(),
{
    let s = colon_joined(list);
    let w = list[0];
    assert(is_group(w));
    assert(in_class(Class::Hex, w[0]) && in_class(Class::Hex, w[w.len() - 1]));
    if list.len() > 1 {
        let rest = list.skip(1);
        assert forall|i: int| 0 <= i < rest.len() implies is_group(#[trigger] rest[i]) by {
            assert(is_group(list[i + 1]));
        }
        lemma_joined_groups(rest);
        let t = colon_joined(rest);
        let n = w.len() as int;
        assert(s[0] == w[0]);
        assert(s.last() == t.last());
        assert forall|i: int| 0 <= i < s.len() && #[trigger] s[i] == ':' implies i + 1 < s.len()
            && s[i + 1] != ':' by {
            if i < n {
                assert(s[i] == w[i]);
                assert(in_class(Class::Hex, w[i]));
            } else if i == n {
                assert(s[i + 1] == t[0]);
            } else {
                assert(s[i] == t[i - n - 1]);
                assert(s[i + 1] == t[i - n]);
            }
        }
    } else {
        assert forall|i: int| 0 <= i < s.len() implies #[trigger] s[i] != ':' by {
            assert(in_class(Class::Hex, w[i]));
        }
    }
}

proof fn lemma_groups_counted(before: Seq<char>, list: Seq<Seq<char>>)
    requires
        list.len() > 0,
        are_groups(list),
    ensures
        groups_from(before + colon_joined(list), before.len() as int) == Some(list.len()),
    decreases list.len(),
{
    let w = list[0];
    let s = before + colon_joined(list);
    let p = before.len() as int;
    let e = p + w.len();
    assert(is_group(w));
    assert forall|i: int| p <= i < e implies in_class(Class::Hex, #[trigger] s[i]) by {
        assert(s[i] == w[i - p]);
        assert(in_class(Class::Hex, w[i - p]));
    }
    if list.len() > 1 {
        let rest = list.skip(1);
        assert forall|i: int| 0 <= i < rest.len() implies is_group(#[trigger] rest[i]) by {
            assert(is_group(list[i + 1]));
        }
        assert(s[e] == ':');
        lemma_run_end_is(s, p, e, Class::Hex);
        let longer = before + w + seq![':'];
        assert(s =~= longer + colon_joined(rest));
        lemma_groups_counted(longer, rest);
    } else {
        lemma_run_end_is(s, p, e, Class::Hex);
    }
}

proof fn lemma_groups_of(list: Seq<Seq<char>>)
    requires
        are_groups(list),
    ensures
        groups(colon_joined(list)) == Some(list.len()),
{
    if list.len() > 0 {
        let none = Seq::<char>::empty();
        lemma_groups_counted(none, list);
        lemma_joined_groups(list);
        assert(none + colon_joined(list) =~= colon_joined(list));
    }
}

/// Groups of hexadecimal digits make a bare IPv6 address if there are eight
/// of them, or if `::` stands among at most seven of them, or alone.
pub proof fn law_bare_addresses(head: Seq<Seq<char>>, tail: Seq<Seq<char>>)
    requires
        are_groups(head),
        are_groups(tail),
    ensures
        is_bare_address(colon_joined(head)) <==> head.len() == 8,
        is_bare_address(colon_joined(head) + seq![':', ':'] + colon_joined(tail)) <==> head.len()
            + tail.len() <= 7,
{
    let a = colon_joined(head);
    let b = colon_joined(tail);
    let s = a + seq![':', ':'] + b;
    let n = a.len() as int;
    lemma_groups_of(head);
    lemma_groups_of(tail);
    if head.len() > 0 {
        lemma_joined_groups(head);
    }
    if let Some(k) = pair_from(a, 0, ':', ':') {
        lemma_pair_found(a, 0, ':', ':');
        assert(a[k] == ':');
    }
    assert(s[n] == ':' && s[n + 1] == ':');
    assert forall|i: int| 0 <= i < n implies !(#[trigger] s[i] == ':' && s[i + 1] == ':') by {
        assert(s[i] == a[i]);
        if a[i] == ':' {
            assert(s[i + 1] == a[i + 1]);
        }
    }
    lemma_pair_from_is(s, 0, ':', ':', n);
    assert(s.take(n) =~= a);
    assert(s.skip(n + 2) =~= b);
}

proof fn lemma_groups_listed(s: Seq<char>, p: int) -> (list: Seq<Seq<char>>)
    requires
        0 <= p <= s.len(),
        groups_from(s, p) is Some,
    ensures
        are_groups(list),
        list.len() > 0,
        groups_from(s, p) == Some(list.len()),
        colon_joined(list) == s.skip(p),
    decreases s.len() - p,
{
    let e = run_end(s, p, Class::Hex);
    lemma_run_end(s, p, Class::Hex);
    let w = s.subrange(p, e);
    assert forall|i: int| 0 <= i < w.len() implies in_class(Class::Hex, #[trigger] w[i]) by {
        assert(w[i] == s[p + i]);
    }
    assert(is_group(w));
    if e < s.len() {
        let rest = lemma_groups_listed(s, e + 1);
        let list = seq![w] + rest;
        assert forall|i: int| 0 <= i < list.len() implies is_group(#[trigger] list[i]) by {
            if i > 0 {
                assert(is_group(rest[i - 1]));
            }
        }
        assert(list.skip(1) =~= rest);
        assert(s.skip(p) =~= w + (seq![':'] + s.skip(e + 1)));
        list
    } else {
        let list = seq![w];
        assert(s.skip(p) =~= w);
        list
    }
}

proof fn lemma_groups_are(s: Seq<char>) -> (list: Seq<Seq<char>>)
    requires
        groups(s) is Some,
    ensures
        are_groups(list),
        groups(s) == Some(list.len()),
        colon_joined(list) == s,
{
    if s.len() == 0 {
        assert(s =~= seq![]);
        seq![]
    } else {
        let list = lemma_groups_listed(s, 0);
        assert(s.skip(0) =~= s);
        list
    }
}

/// Whether `s` is these groups, with `::` between the two lists if `cut`.
pub open spec fn is_written_as(
    s: Seq<char>,
    head: Seq<Seq<char>>,
    cut: bool,
    tail: Seq<Seq<char>>,
) -> bool {
    &&& are_groups(head)
    &&& are_groups(tail)
    &&& if cut {
        s == colon_joined(head) + seq![':', ':'] + colon_joined(tail) && head.len() + tail.len()
            <= 7
    } else {
        s == colon_joined(head) && head.len() == 8
    }
}

/// There is no other way to write a bare IPv6 address.
pub proof fn law_only_bare_addresses(s: Seq<char>)
    requires
        is_bare_address(s),
    ensures
        exists|head: Seq<Seq<char>>, cut: bool, tail: Seq<Seq<char>>|
            is_written_as(s, head, cut, tail),
{
    lemma_pair_found(s, 0, ':', ':');
    match pair_from(s, 0, ':', ':') {
        Some(k) => {
            let head = lemma_groups_are(s.take(k));
            let tail = lemma_groups_are(s.skip(k + 2));
            assert(s =~= s.take(k) + seq![':', ':'] + s.skip(k + 2));
            assert(is_written_as(s, head, true, tail));
        },
        None => {
            let head = lemma_groups_are(s);
            assert(is_written_as(s, head, false, seq![]));
        },
    }
}

} // verus!
