//! Connection settings.

use crate::grouping::find_char_back;
use crate::text::{append_digits, append_text, chars_of};
use vstd::prelude::*;

verus! {

use crate::grouping::find_back;
use crate::text::decimal;

/// Wire protocol for a remote connection.
#[derive(Clone, Copy, Debug, PartialEq, Eq, Structural)]
pub enum Protocol {
    Tcp,
    Udp,
    Serial,
}

impl Protocol {
    pub fn label(self) -> (r: &'static str)
        ensures
            r@ == (match self {
                Protocol::Tcp => "TCP"@,
                Protocol::Udp => "UDP"@,
                Protocol::Serial => "Serial"@,
            }),
    {
        match self {
            Protocol::Tcp => "TCP",
            Protocol::Udp => "UDP",
            Protocol::Serial => "Serial",
        }
    }

    /// The scheme in front of an address.
    pub open spec fn scheme(self) -> Seq<char> {
        match self {
            Protocol::Tcp => "tcp://"@,
            Protocol::Udp => "udp://"@,
            Protocol::Serial => "serial://"@,
        }
    }
}

/// Where to connect to, and how.
#[derive(Clone, Debug, PartialEq, Eq)]
pub struct Connection {
    pub host: String,
    pub port: u16,
    pub protocol: Protocol,
}

/// What a [`Connection`] says.
#[verifier::ext_equal]
pub struct ConnectionView {
    pub host: Seq<char>,
    pub port: u16,
    pub protocol: Protocol,
}

impl View for Connection {
    type V = ConnectionView;

    open spec fn view(&self) -> ConnectionView {
        ConnectionView { host: self.host@, port: self.port, protocol: self.protocol }
    }
}

/// The port of an address that names none.
pub const DEFAULT_PORT: u16 = 4040;

/// The host of an address that names none.
pub open spec fn default_host() -> Seq<char> {
    "127.0.0.1"@
}

impl Default for Connection {
    fn default() -> (r: Self)
        ensures
            r@ == (ConnectionView {
                host: default_host(),
                port: DEFAULT_PORT,
                protocol: Protocol::Tcp,
            }),
    {
        Connection { host: "127.0.0.1".to_owned(), port: DEFAULT_PORT, protocol: Protocol::Tcp }
    }
}

/// Whether all characters are decimal digits.
pub open spec fn all_digits(s: Seq<char>) -> bool {
    forall|i: int| 0 <= i < s.len() ==> '0' <= #[trigger] s[i] <= '9'
}

/// The number that decimal digits spell.
pub open spec fn digits_value(s: Seq<char>) -> nat
    decreases s.len(),
{
    if s.len() == 0 {
        0
    } else {
        (10 * digits_value(s.drop_last()) + (s.last() as int - '0' as int)) as nat
    }
}

/// A number without its plus sign.
pub open spec fn unsigned_part(s: Seq<char>) -> Seq<char> {
    if s.len() > 0 && s[0] == '+' {
        s.skip(1)
    } else {
        s
    }
}

/// The port that a text spells: digits, with an optional plus sign, of a number up
/// to 65535.
pub open spec fn port_of(s: Seq<char>) -> Option<u16> {
    let d = unsigned_part(s);
    if d.len() > 0 && all_digits(d) && digits_value(d) <= 0xffff {
        Some(digits_value(d) as u16)
    } else {
        None
    }
}

/// What std says of a text that is no `u16`.
pub uninterp spec fn port_fault(s: Seq<char>) -> Seq<char>;

/// `str::parse::<u16>` of std, with the error as its text: the number that an
/// optional plus sign and digits spell, where it is in range. The text of the error
/// is left to the name.
#[verifier::external_body]
fn parse_port(s: &str) -> (r: Result<u16, String>)
    ensures
        r is Ok <==> port_of(s@) is Some,
        r matches Ok(v) ==> port_of(s@) == Some(v),
        r matches Err(e) ==> e@ == port_fault(s@),
{
    s.parse::<u16>().map_err(|e| e.to_string())
}

/// How std quotes a text for debugging.
pub uninterp spec fn quoted(s: Seq<char>) -> Seq<char>;

/// `format!` of std with a text as `{:?}`: the text in quotes, with escapes. Which
/// characters are escaped is left to the name.
#[verifier::external_body]
fn quote(s: &str) -> (r: String)
    ensures
        r@ == quoted(s@),
{
    format!("{:?}", s)
}

/// Whether `s` starts with `p`.
pub open spec fn starts_with(s: Seq<char>, p: Seq<char>) -> bool {
    s.len() >= p.len() && s.take(p.len() as int) == p
}

/// The protocol that an address names, and what follows. An address without a
/// scheme is a TCP one.
pub open spec fn split_scheme(s: Seq<char>) -> (Protocol, Seq<char>) {
    if starts_with(s, Protocol::Tcp.scheme()) {
        (Protocol::Tcp, s.skip(Protocol::Tcp.scheme().len() as int))
    } else if starts_with(s, Protocol::Udp.scheme()) {
        (Protocol::Udp, s.skip(Protocol::Udp.scheme().len() as int))
    } else if starts_with(s, Protocol::Serial.scheme()) {
        (Protocol::Serial, s.skip(Protocol::Serial.scheme().len() as int))
    } else {
        (Protocol::Tcp, s)
    }
}

/// The message for an address whose port is none.
pub open spec fn bad_port_text(quoted: Seq<char>, fault: Seq<char>) -> Seq<char> {
    "bad port "@ + quoted + ": "@ + fault
}

/// The host and the port text of an address: what stands before and after its last
/// colon. Without a colon there is no port text.
pub open spec fn split_port(rest: Seq<char>) -> (Seq<char>, Seq<char>) {
    let colon = find_back(rest, ':', rest.len() as int);
    if colon < 0 {
        (rest, Seq::empty())
    } else {
        (rest.take(colon), rest.skip(colon + 1))
    }
}

/// A host, or the usual one where there is none.
pub open spec fn host_or_default(host: Seq<char>) -> Seq<char> {
    if host.len() == 0 {
        default_host()
    } else {
        host
    }
}

/// What an address says: a device for a serial connection, a host and a port for the
/// others. A part that is missing is the default one.
pub open spec fn connection_of(s: Seq<char>) -> Result<ConnectionView, Seq<char>> {
    let (protocol, rest) = split_scheme(s);
    let (host, port) = split_port(rest);
    if protocol == Protocol::Serial {
        Ok(ConnectionView { host: rest, port: 0, protocol })
    } else if port.len() == 0 {
        Ok(ConnectionView { host: host_or_default(host), port: DEFAULT_PORT, protocol })
    } else {
        match port_of(port) {
            Some(p) => Ok(ConnectionView { host: host_or_default(host), port: p, protocol }),
            None => Err(bad_port_text(quoted(port), port_fault(port))),
        }
    }
}

/// The rest of `s` after `p`, if `s` starts with `p`.
fn strip<'a>(s: &'a str, p: &str) -> (r: Option<&'a str>)
    ensures
        r is Some <==> starts_with(s@, p@),
        r matches Some(t) ==> t@ == s@.skip(p@.len() as int),
{
    let a = chars_of(s);
    let b = chars_of(p);
    if a.len() < b.len() {
        return None;
    }
    let mut i: usize = 0;
    while i < b.len()
        invariant
            i <= b@.len() <= a@.len(),
            a@ == s@,
            b@ == p@,
            forall|j: int| 0 <= j < i ==> a@[j] == b@[j],
        decreases b@.len() - i,
    {
        if a[i] != b[i] {
            proof {
                if s@.take(p@.len() as int) == p@ {
                    assert(s@.take(p@.len() as int)[i as int] == p@[i as int]);
                }
            }
            return None;
        }
        i = i + 1;
    }
    assert(s@.take(p@.len() as int) =~= p@);
    assert(s@.subrange(b@.len() as int, s@.len() as int) =~= s@.skip(p@.len() as int));
    Some(s.substring_char(b.len(), a.len()))
}

/// The message for an address whose port is none.
pub fn bad_port_message(quoted: &str, fault: &str) -> (r: String)
    ensures
        r@ == bad_port_text(quoted@, fault@),
{
    let mut out = String::new();
    append_text(&mut out, "bad port ");
    append_text(&mut out, quoted);
    append_text(&mut out, ": ");
    append_text(&mut out, fault);
    assert(out@ =~= bad_port_text(quoted@, fault@));
    out
}

fn host_of(host: &str) -> (r: String)
    ensures
        r@ == host_or_default(host@),
{
    if chars_of(host).len() == 0 {
        "127.0.0.1".to_owned()
    } else {
        host.to_owned()
    }
}

impl Connection {
    /// Parses `host:port`, with an optional `tcp://` or `udp://` in front, or
    /// `serial://` and a device. Missing parts are the default ones.
    pub fn parse(s: &str) -> (r: Result<Self, String>)
        ensures
            match (r, connection_of(s@)) {
                (Ok(c), Ok(m)) => c@ == m,
                (Err(e), Err(m)) => e@ == m,
                _ => false,
            },
    {
        let (protocol, rest) = match strip(s, "tcp://") {
            Some(rest) => (Protocol::Tcp, rest),
            None => match strip(s, "udp://") {
                Some(rest) => (Protocol::Udp, rest),
                None => match strip(s, "serial://") {
                    Some(rest) => (Protocol::Serial, rest),
                    None => (Protocol::Tcp, s),
                },
            },
        };
        assert((protocol, rest@) == split_scheme(s@));
        if protocol == Protocol::Serial {
            return Ok(Connection { host: rest.to_owned(), port: 0, protocol });
        }
        let v = chars_of(rest);
        let after = find_char_back(&v, ':');
        if after == 0 {
            return Ok(Connection { host: host_of(rest), port: DEFAULT_PORT, protocol });
        }
        let host = rest.substring_char(0, after - 1);
        let tail = rest.substring_char(after, v.len());
        assert(host@ =~= rest@.take(after - 1));
        assert(tail@ =~= rest@.skip(after as int));
        if after == v.len() {
            return Ok(Connection { host: host_of(host), port: DEFAULT_PORT, protocol });
        }
        match parse_port(tail) {
            Ok(port) => Ok(Connection { host: host_of(host), port, protocol }),
            Err(e) => Err(bad_port_message(quote(tail).as_str(), e.as_str())),
        }
    }

    /// `host:port`, as a socket wants it.
    pub fn socket_addr(&self) -> (r: String)
        ensures
            r@ == self@.address(),
    {
        let mut out = self.host.clone();
        out.push(':');
        append_digits(&mut out, self.port as u64, 10);
        assert(out@ =~= self@.address());
        out
    }

    /// The address with its scheme.
    pub fn pretty(&self) -> (r: String)
        ensures
            r@ == self@.pretty_text(),
    {
        let mut out = String::new();
        match self.protocol {
            Protocol::Serial => {
                append_text(&mut out, "serial://");
                append_text(&mut out, self.host.as_str());
            },
            Protocol::Tcp => {
                append_text(&mut out, "tcp://");
                append_text(&mut out, self.socket_addr().as_str());
            },
            Protocol::Udp => {
                append_text(&mut out, "udp://");
                append_text(&mut out, self.socket_addr().as_str());
            },
        }
        assert(out@ =~= self@.pretty_text());
        out
    }
}

impl ConnectionView {
    /// `host:port`.
    pub open spec fn address(self) -> Seq<char> {
        self.host.push(':') + decimal(self.port as nat)
    }

    /// The address with its scheme; a serial device has no port.
    pub open spec fn pretty_text(self) -> Seq<char> {
        if self.protocol == Protocol::Serial {
            self.protocol.scheme() + self.host
        } else {
            self.protocol.scheme() + self.address()
        }
    }
}

pub proof fn lemma_decimal_digits(n: nat)
    ensures
        decimal(n).len() > 0,
        all_digits(decimal(n)),
        digits_value(decimal(n)) == n,
    decreases n,
{
    if n >= 10 {
        lemma_decimal_digits(n / 10);
        let d = decimal(n);
        assert(d.drop_last() =~= decimal(n / 10));
        assert(d.last() == crate::text::digit_char(n % 10));
    } else {
        let d = decimal(n);
        assert(d.drop_last() =~= Seq::empty());
        assert(d.last() == crate::text::digit_char(n));
        reveal_with_fuel(digits_value, 2);
    }
}

proof fn lemma_find_back(s: Seq<char>, c: char, n: int, at: int)
    requires
        0 <= at < n <= s.len(),
        s[at] == c,
        forall|j: int| at < j < n ==> s[j] != c,
    ensures
        find_back(s, c, n) == at,
    decreases n,
{
    if n - 1 > at {
        lemma_find_back(s, c, n - 1, at);
    }
}

/// The pretty form of a connection parses back to it. A serial connection has no
/// port, and the others have a host.
pub proof fn law_pretty_parses_back(c: ConnectionView)
    requires
        c.protocol == Protocol::Serial ==> c.port == 0,
        c.protocol != Protocol::Serial ==> c.host.len() > 0,
    ensures
        connection_of(c.pretty_text()) == Ok::<ConnectionView, Seq<char>>(c),
{
    reveal_strlit("tcp://");
    reveal_strlit("udp://");
    reveal_strlit("serial://");
    let s = c.pretty_text();
    let scheme = c.protocol.scheme();
    let rest = if c.protocol == Protocol::Serial {
        c.host
    } else {
        c.address()
    };
    assert(s == scheme + rest);
    assert(s.take(scheme.len() as int) =~= scheme);
    assert(s.skip(scheme.len() as int) =~= rest);
    if c.protocol != Protocol::Tcp {
        assert(s.take(6)[0] == scheme[0]);
        assert(!starts_with(s, Protocol::Tcp.scheme()));
    }
    if c.protocol == Protocol::Serial {
        assert(!starts_with(s, Protocol::Udp.scheme()));
    }
    assert(split_scheme(s) == (c.protocol, rest));
    if c.protocol != Protocol::Serial {
        let d = decimal(c.port as nat);
        lemma_decimal_digits(c.port as nat);
        let at = c.host.len() as int;
        assert(rest[at] == ':');
        assert forall|j: int| at < j < rest.len() implies rest[j] != ':' by {
            assert(rest[j] == d[j - at - 1]);
        }
        lemma_find_back(rest, ':', rest.len() as int, at);
        assert(rest.take(at) =~= c.host);
        assert(rest.skip(at + 1) =~= d);
        assert('0' <= d[0] <= '9');
    }
}

} // verus!
