//! IRC protocol lines.

use vstd::prelude::*;

use crate::number::{digits_to_usize, digits_value, parse_port, port_number};
use crate::text::{
    begins_with, chars_of, copy_between, find_last, find_pair, join, join_strings, last_before,
    lemma_run_end, pair_from, run_end, skip_run, split_words, string_between, trim_chars, trim_text,
    words, Class,
};

verus! {

// ---------------------------------------------------------------------------
// Messages
// ---------------------------------------------------------------------------

/// The mathematical value of an [`IrcMessage`].
#[verifier::ext_equal]
pub struct Message {
    pub prefix: Option<Seq<char>>,
    pub command: Seq<char>,
    pub params: Seq<Seq<char>>,
}

/// A minimally-parsed IRC line: `[:prefix] COMMAND [params...] [:trailing]`.
/// `params` holds middle params followed by the trailing param (if any) as a
/// single last element, matching how most IRC messages are consumed.
#[derive(Debug)]
pub struct IrcMessage {
    pub prefix: Option<String>,
    pub command: String,
    pub params: Vec<String>,
}

impl View for IrcMessage {
    type V = Message;

    open spec fn view(&self) -> Message {
        Message {
            prefix: match self.prefix {
                Some(p) => Some(p@),
                None => None,
            },
            command: self.command@,
            params: self.params.deep_view(),
        }
    }
}

/// Where a line's command starts: behind the prefix and one space, if there
/// is a prefix.
pub open spec fn command_start(line: Seq<char>) -> int {
    if line.len() > 0 && line[0] == ':' {
        let e = run_end(line, 1, Class::Unspaced);
        if e < line.len() {
            e + 1
        } else {
            e
        }
    } else {
        0
    }
}

/// The message whose command and middle parameters are `list`, followed by
/// the given parameter.
pub open spec fn message_with(
    prefix: Option<Seq<char>>,
    list: Seq<Seq<char>>,
    trailing: Option<Seq<char>>,
) -> Message {
    let last = match trailing {
        Some(t) => seq![t],
        None => seq![],
    };
    if list.len() > 0 {
        Message { prefix, command: list[0], params: list.skip(1) + last }
    } else {
        Message { prefix, command: seq![], params: last }
    }
}

/// The message that a line stands for. A `:` at its beginning starts a
/// prefix, which ends at the first space; the first ` :` behind that starts
/// the trailing parameter; what is left is made of words.
pub open spec fn message_of(line: Seq<char>) -> Message {
    let start = command_start(line);
    let prefix = if line.len() > 0 && line[0] == ':' {
        Some(line.subrange(1, run_end(line, 1, Class::Unspaced)))
    } else {
        None
    };
    let rest = line.skip(start);
    match pair_from(rest, 0, ' ', ':') {
        Some(i) => message_with(prefix, words(rest.take(i)), Some(rest.skip(i + 2))),
        None => message_with(prefix, words(rest), None),
    }
}

/// Parses one raw IRC protocol line (no trailing CR/LF) into its parts.
pub fn parse_irc_line(line: &str) -> (r: IrcMessage)
    ensures
        r@ == message_of(line@),
{
    let v = chars_of(line);
    let mut prefix: Option<String> = None;
    let mut start: usize = 0;
    if v.len() > 0 && v[0] == ':' {
        let e = skip_run(v.as_slice(), 1, Class::Unspaced);
        proof {
            lemma_run_end(v@, 1, Class::Unspaced);
        }
        prefix = Some(string_between(v.as_slice(), 1, e));
        start = if e < v.len() {
            e + 1
        } else {
            e
        };
    }
    let rest = copy_between(v.as_slice(), start, v.len());
    assert(rest@ =~= line@.skip(start as int));
    let (list, trailing): (Vec<String>, Option<String>) = match find_pair(
        rest.as_slice(),
        0,
        ' ',
        ':',
    ) {
        Some(i) => {
            let head = copy_between(rest.as_slice(), 0, i);
            let trailing = string_between(rest.as_slice(), i + 2, rest.len());
            assert(head@ =~= rest@.take(i as int));
            assert(trailing@ =~= rest@.skip(i + 2));
            (split_words(head.as_slice()), Some(trailing))
        },
        None => (split_words(rest.as_slice()), None),
    };
    let ghost all = list.deep_view();
    let mut command = String::new();
    let mut params: Vec<String> = Vec::new();
    let mut i: usize = 0;
    while i < list.len()
        invariant
            i <= list@.len(),
            all == list.deep_view(),
            i == 0 ==> command@ == Seq::<char>::empty() && params@.len() == 0,
            i > 0 ==> command@ == all[0] && params@.len() == i - 1,
            forall|j: int| 0 <= j < params@.len() ==> (#[trigger] params@[j])@ == all[j + 1],
        decreases list@.len() - i,
    {
        if i == 0 {
            command = list[0].clone();
        } else {
            params.push(list[i].clone());
        }
        i = i + 1;
    }
    let ghost middle = params.deep_view();
    assert(middle =~= (if all.len() > 0 {
        all.skip(1)
    } else {
        seq![]
    }));
    if let Some(t) = trailing {
        params.push(t);
        assert(params.deep_view() =~= middle + seq![t@]);
    } else {
        assert(params.deep_view() =~= middle + Seq::<Seq<char>>::empty());
    }
    let r = IrcMessage { prefix, command, params };
    assert(r@ =~= message_of(line@));
    r
}

/// The number of a numeric reply: a command of three digits.
pub open spec fn numeric_code(command: Seq<char>) -> Option<nat> {
    if command.len() == 3 && run_end(command, 0, Class::Digit) == 3 {
        Some(digits_value(command))
    } else {
        None
    }
}

impl IrcMessage {
    /// The number of a numeric reply (e.g. `001`, `353`, `376`).
    pub fn numeric(&self) -> (r: Option<u16>)
        ensures
            match numeric_code(self@.command) {
                Some(n) => r matches Some(code) && code == n,
                None => r is None,
            },
    {
        let v = chars_of(self.command.as_str());
        if v.len() != 3 || skip_run(v.as_slice(), 0, Class::Digit) != 3 {
            return None;
        }
        proof {
            lemma_run_end(v@, 0, Class::Digit);
            assert(v@.subrange(0, 3) =~= v@);
            lemma_three_digits(v@);
        }
        match digits_to_usize(v.as_slice(), 0, 3) {
            Some(n) => Some(n as u16),
            None => None,
        }
    }
}

proof fn lemma_three_digits(s: Seq<char>)
    requires
        s.len() == 3,
    ensures
        digits_value(s) < 1000,
{
    let a = s.drop_last();
    let b = a.drop_last();
    assert(b.drop_last() =~= seq![]);
    assert(digits_value(b.drop_last()) == 0);
    assert(digits_value(b) <= 9);
    assert(digits_value(a) <= 99);
}

/// What is shown of a message: the prefix, the command unless it is a
/// number, and the parameters.
pub open spec fn shown(m: Message) -> Seq<char> {
    let prefix = match m.prefix {
        Some(p) => p.push(' '),
        None => seq![],
    };
    let command = if numeric_code(m.command) is Some {
        seq![]
    } else {
        m.command.push(' ')
    };
    trim_text(prefix + command + join(m.params))
}

/// Formats a raw IRC line for display in the output area. Numeric replies
/// (e.g. `001`, `353`, `376`) are stripped from the visible text -- the sender
/// and message body still show, just without the noisy 3-digit code.
pub fn format_irc_line(raw: &str) -> (r: String)
    ensures
        r@ == shown(message_of(raw@)),
{
    let msg = parse_irc_line(raw);
    let mut out = String::new();
    if let Some(prefix) = &msg.prefix {
        out.append(prefix.as_str());
        out.push(' ');
    }
    let ghost first = out@;
    if msg.numeric().is_none() {
        out.append(msg.command.as_str());
        out.push(' ');
    }
    let ghost second = out@;
    let params = msg.params.as_slice();
    assert(params.deep_view() =~= msg@.params);
    out.append(join_strings(params).as_str());
    proof {
        let prefix = match msg@.prefix {
            Some(p) => p.push(' '),
            None => seq![],
        };
        assert(first =~= prefix);
        assert(numeric_code(msg@.command) is None ==> second =~= prefix + msg@.command.push(' '));
        assert(numeric_code(msg@.command) is Some ==> second =~= prefix + Seq::<char>::empty());
    }
    let trimmed = trim_chars(chars_of(out.as_str()).as_slice());
    let r = string_between(trimmed.as_slice(), 0, trimmed.len());
    assert(r@ =~= trimmed@);
    r
}

// ---------------------------------------------------------------------------
// Where to connect to
// ---------------------------------------------------------------------------

/// A server to connect to.
#[verifier::ext_equal]
pub struct Target {
    pub host: Seq<char>,
    pub port: u16,
    pub tls: bool,
}

/// Whether a trimmed argument asks for TLS, and what is left of it.
pub open spec fn flag_split(t: Seq<char>) -> (bool, Seq<char>) {
    if "--tls"@.is_prefix_of(t) {
        (true, trim_text(t.skip("--tls"@.len() as int)))
    } else if "-tls"@.is_prefix_of(t) {
        (true, trim_text(t.skip("-tls"@.len() as int)))
    } else {
        (false, t)
    }
}

/// The port for a server that none is given for.
pub open spec fn default_port(tls: bool) -> u16 {
    if tls {
        6697
    } else {
        6667
    }
}

/// The number of groups of one to four hexadecimal digits, with a colon
/// between each two, that `s` is made of from `p` on. `None` if it is not
/// made of such groups.
pub open spec fn groups_from(s: Seq<char>, p: int) -> Option<nat>
    decreases s.len() - p,
{
    let e = run_end(s, p, Class::Hex);
    if !(0 <= p < e <= p + 4) {
        None
    } else if e >= s.len() {
        Some(1)
    } else if s[e] == ':' {
        match groups_from(s, e + 1) {
            Some(n) => Some(n + 1),
            None => None,
        }
    } else {
        None
    }
}

/// The number of such groups of a text that may be empty.
pub open spec fn groups(s: Seq<char>) -> Option<nat> {
    if s.len() == 0 {
        Some(0)
    } else {
        groups_from(s, 0)
    }
}

/// Whether `s` is an IPv6 address written as hexadecimal groups: eight of
/// them, or fewer with `::` in place of those that are left out.
pub open spec fn is_bare_address(s: Seq<char>) -> bool {
    match pair_from(s, 0, ':', ':') {
        Some(k) => match (groups(s.take(k)), groups(s.skip(k + 2))) {
            (Some(m), Some(n)) => m + n <= 7,
            _ => false,
        },
        None => groups(s) == Some(8nat),
    }
}

/// The server that `rest` names: what is behind the last colon is the port if
/// it is a port number, unless `rest` is a bare IPv6 address; otherwise all
/// of it is the host.
pub open spec fn target_named(rest: Seq<char>, tls: bool) -> Target {
    let whole = Target { host: rest, port: default_port(tls), tls };
    match last_before(rest, rest.len() as int, ':') {
        Some(i) => match port_number(rest.skip(i + 1)) {
            Some(port) if !is_bare_address(rest) => Target { host: rest.take(i), port, tls },
            _ => whole,
        },
        None => whole,
    }
}

/// The number of groups that `v` is made of, if it is.
fn count_groups(v: &[char]) -> (r: Option<u128>)
    ensures
        match groups(v@) {
            Some(n) => r matches Some(m) && m == n,
            None => r is None,
        },
{
    if v.len() == 0 {
        return Some(0);
    }
    let mut count: u128 = 0;
    let mut p: usize = 0;
    loop
        invariant
            0 <= p <= v@.len(),
            count <= p,
            match groups_from(v@, p as int) {
                Some(n) => groups_from(v@, 0) == Some(count as nat + n),
                None => groups_from(v@, 0) is None,
            },
            v@.len() > 0,
        decreases v@.len() - p,
    {
        let e = skip_run(v, p, Class::Hex);
        if e == p || e - p > 4 {
            return None;
        }
        count = count + 1;
        if e >= v.len() {
            return Some(count);
        }
        if v[e] != ':' {
            return None;
        }
        p = e + 1;
    }
}

/// Whether `v` is an IPv6 address written as hexadecimal groups.
fn names_bare_address(v: &[char]) -> (r: bool)
    ensures
        r == is_bare_address(v@),
{
    let end: usize = v.len();
    match find_pair(v, 0, ':', ':') {
        Some(k) => {
            let head = copy_between(v, 0, k);
            let tail = copy_between(v, k + 2, end);
            assert(head@ =~= v@.take(k as int));
            assert(tail@ =~= v@.skip(k + 2));
            match (count_groups(head.as_slice()), count_groups(tail.as_slice())) {
                (Some(m), Some(n)) => m <= 7 && n <= 7 - m,
                _ => false,
            }
        },
        None => match count_groups(v) {
            Some(n) => n == 8,
            None => false,
        },
    }
}

/// The server that the argument of `connect` names, if it names one.
pub open spec fn connect_target(arg: Seq<char>) -> Option<Target> {
    let (tls, rest) = flag_split(trim_text(arg));
    if rest.len() == 0 {
        None
    } else {
        Some(target_named(rest, tls))
    }
}

/// Turns a user-typed `/connect` argument into (host, port, use_tls).
/// Accepts an optional leading `--tls` (or `-tls`) flag, e.g.
/// `--tls irc.libera.chat:6697` or plain `irc.libera.chat`. Defaults the
/// port to IRC's traditional plaintext port (6667), or 6697 when TLS is
/// requested and no port is given. What is not `host:port` (e.g. a bare IPv6
/// address) is used as-is.
pub fn parse_connect_args(arg: &str) -> (r: Option<(String, u16, bool)>)
    ensures
        match connect_target(arg@) {
            Some(target) => r matches Some((host, port, tls)) && host@ == target.host && port
                == target.port && tls == target.tls,
            None => r is None,
        },
{
    let t = trim_chars(chars_of(arg).as_slice());
    proof {
        reveal_strlit("--tls");
        reveal_strlit("-tls");
    }
    let mut tls = false;
    let mut rest: Vec<char> = Vec::new();
    if begins_with(t.as_slice(), "--tls") {
        tls = true;
        let tail = copy_between(t.as_slice(), 5, t.len());
        assert(tail@ =~= t@.skip(5));
        rest = trim_chars(tail.as_slice());
    } else if begins_with(t.as_slice(), "-tls") {
        tls = true;
        let tail = copy_between(t.as_slice(), 4, t.len());
        assert(tail@ =~= t@.skip(4));
        rest = trim_chars(tail.as_slice());
    } else {
        rest = t;
    }
    if rest.len() == 0 {
        return None;
    }
    if let Some(i) = find_last(rest.as_slice(), rest.len(), ':') {
        if !names_bare_address(rest.as_slice()) {
            if let Some(port) = parse_port(rest.as_slice(), i + 1) {
                let host = string_between(rest.as_slice(), 0, i);
                assert(host@ =~= rest@.take(i as int));
                return Some((host, port, tls));
            }
        }
    }
    let host = string_between(rest.as_slice(), 0, rest.len());
    assert(host@ =~= rest@);
    let port: u16 = if tls {
        6697
    } else {
        6667
    };
    Some((host, port, tls))
}

} // verus!
