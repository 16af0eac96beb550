//! `ostp://` links.
//!
//! `ostp://KEY@HOST:PORT?type=uot&tls=1&sni=..&insecure=1&path=..&tun=true&dns=..&owndns=true&name=..`

use vstd::prelude::*;
use vstd::slice::slice_subrange;
use vstd::utf8::{encode_utf8, is_ascii_chars, is_ascii_chars_encode_utf8};

use crate::text::{
    chars_are, chars_of, cut, decimal, eq_nocase, has_char, holds_char, is_digit, is_white, join, join_strings,
    lemma_decimal_digits, lemma_find_char_is, lemma_find_char_none, lemma_join_chars, lemma_parse_decimal,
    lemma_rfind_char_is, lemma_split_join, lemma_text_of_encoded, lower, number, owned, parse_number, pieces,
    put_decimal, put_str, rcut, rsplit_once, same_nocase, split, split_once, string_of, string_views, text_from,
    text_of, to_lower, trim, trim_end_char, trimmed, utf8_of, views, without_trailing,
};

verus! {

// ── Percent encoding ─────────────────────────────────────────────────────────

/// A byte that stands for itself: letters, digits, `-`, `.`, `_` and `~`.
pub open spec fn unreserved(b: u8) -> bool {
    ||| 0x30 <= b <= 0x39
    ||| 0x41 <= b <= 0x5a
    ||| 0x61 <= b <= 0x7a
    ||| b == 0x2d
    ||| b == 0x2e
    ||| b == 0x5f
    ||| b == 0x7e
}

/// A digit of base sixteen, in upper case.
pub open spec fn upper_hex(d: int) -> char {
    if d < 10 {
        (0x30 + d) as char
    } else {
        (0x41 + d - 10) as char
    }
}

pub open spec fn encoded_byte(b: u8) -> Seq<char> {
    if unreserved(b) {
        seq![b as char]
    } else {
        seq!['%', upper_hex(b as int / 16), upper_hex(b as int % 16)]
    }
}

/// Each byte as itself, or as `%` and two digits.
pub open spec fn percent_bytes(b: Seq<u8>) -> Seq<char>
    decreases b.len(),
{
    if b.len() == 0 {
        Seq::empty()
    } else {
        percent_bytes(b.drop_last()) + encoded_byte(b.last())
    }
}

pub open spec fn hex_of_byte(b: u8) -> Option<int> {
    if 0x30 <= b <= 0x39 {
        Some(b - 0x30)
    } else if 0x41 <= b <= 0x46 {
        Some(b - 0x41 + 10)
    } else if 0x61 <= b <= 0x66 {
        Some(b - 0x61 + 10)
    } else {
        None
    }
}

/// Whether `%` and two digits are at the start.
pub open spec fn escape(b: Seq<u8>) -> Option<int> {
    if b.len() >= 3 && b[0] == 0x25 {
        match (hex_of_byte(b[1]), hex_of_byte(b[2])) {
            (Some(h), Some(l)) => Some(h * 16 + l),
            _ => None,
        }
    } else {
        None
    }
}

/// `%` and two digits as the byte they stand for, everything else as it is.
pub open spec fn unpercent(b: Seq<u8>) -> Seq<u8>
    decreases b.len(),
{
    if b.len() == 0 {
        Seq::empty()
    } else {
        match escape(b) {
            Some(v) => seq![v as u8] + unpercent(b.subrange(3, b.len() as int)),
            None => seq![b[0]] + unpercent(b.subrange(1, b.len() as int)),
        }
    }
}

/// A text as a part of a link.
pub open spec fn component(s: Seq<char>) -> Seq<char> {
    percent_bytes(encode_utf8(s))
}

/// A text with `+` as a space.
pub open spec fn spaced(s: Seq<char>) -> Seq<char> {
    Seq::new(
        s.len(),
        |i: int|
            if s[i] == '+' {
                ' '
            } else {
                s[i]
            },
    )
}

/// The text of a part of a link; nothing where it is not UTF-8.
pub open spec fn decoded(s: Seq<char>) -> Option<Seq<char>> {
    text_of(unpercent(encode_utf8(spaced(s))))
}

fn upper_hex_char(d: u8) -> (c: char)
    requires
        d < 16,
    ensures
        c == upper_hex(d as int),
{
    if d < 10 {
        (0x30 + d) as char
    } else {
        (0x41 + (d - 10)) as char
    }
}

fn put_component(out: &mut Vec<char>, s: &str)
    ensures
        final(out)@ == old(out)@ + component(s@),
{
    let b = utf8_of(s);
    let mut i: usize = 0;
    assert(b@.subrange(0, 0) =~= Seq::<u8>::empty());
    assert(out@ =~= old(out)@ + percent_bytes(b@.subrange(0, 0)));
    while i < b.len()
        invariant
            i <= b@.len(),
            out@ == old(out)@ + percent_bytes(b@.subrange(0, i as int)),
        decreases b@.len() - i,
    {
        let ghost t = b@.subrange(0, i + 1);
        assert(t.drop_last() =~= b@.subrange(0, i as int));
        assert(t.last() == b@[i as int]);
        let c: u8 = b[i];
        let plain = (0x30 <= c && c <= 0x39) || (0x41 <= c && c <= 0x5a) || (0x61 <= c && c <= 0x7a) || c == 0x2d || c
            == 0x2e || c == 0x5f || c == 0x7e;
        if plain {
            out.push(c as char);
        } else {
            out.push('%');
            out.push(upper_hex_char(c / 16));
            out.push(upper_hex_char(c % 16));
        }
        assert(out@ =~= old(out)@ + percent_bytes(t));
        i += 1;
    }
    assert(b@.subrange(0, i as int) =~= b@);
}

fn hex_byte(b: u8) -> (r: Option<u8>)
    ensures
        match r {
            Some(v) => hex_of_byte(b) == Some(v as int) && v < 16,
            None => hex_of_byte(b) is None,
        },
{
    if 0x30 <= b && b <= 0x39 {
        Some(b - 0x30)
    } else if 0x41 <= b && b <= 0x46 {
        Some(b - 0x41 + 10)
    } else if 0x61 <= b && b <= 0x66 {
        Some(b - 0x61 + 10)
    } else {
        None
    }
}

fn unpercent_bytes(b: &[u8]) -> (out: Vec<u8>)
    ensures
        out@ == unpercent(b@),
{
    let mut out: Vec<u8> = Vec::new();
    let n: usize = b.len();
    let mut i: usize = 0;
    assert(b@.subrange(0, n as int) =~= b@);
    assert(out@ + unpercent(b@) =~= unpercent(b@));
    while i < n
        invariant
            n == b@.len(),
            i <= n,
            out@ + unpercent(b@.subrange(i as int, n as int)) == unpercent(b@),
        decreases n - i,
    {
        let ghost rest = b@.subrange(i as int, n as int);
        let ghost before = out@;
        if n - i >= 3 && b[i] == 0x25 {
            match (hex_byte(b[i + 1]), hex_byte(b[i + 2])) {
                (Some(h), Some(l)) => {
                    out.push(h * 16 + l);
                    let ghost more = unpercent(b@.subrange(i + 3, n as int));
                    assert(rest.subrange(3, rest.len() as int) =~= b@.subrange(i + 3, n as int));
                    assert(before + (seq![(h * 16 + l) as u8] + more) =~= out@ + more);
                    i += 3;
                    continue ;
                },
                _ => {},
            }
        }
        out.push(b[i]);
        let ghost more = unpercent(b@.subrange(i + 1, n as int));
        assert(rest.subrange(1, rest.len() as int) =~= b@.subrange(i + 1, n as int));
        assert(before + (seq![b@[i as int]] + more) =~= out@ + more);
        i += 1;
    }
    assert(b@.subrange(n as int, n as int) =~= Seq::<u8>::empty());
    assert(out@ + Seq::<u8>::empty() =~= out@);
    out
}

fn decode(s: &[char]) -> (r: Option<String>)
    ensures
        match r {
            Some(t) => decoded(s@) == Some(t@),
            None => decoded(s@) is None,
        },
{
    let mut v: Vec<char> = Vec::new();
    let mut i: usize = 0;
    while i < s.len()
        invariant
            i <= s@.len(),
            v@.len() == i,
            forall|k: int| 0 <= k < i ==> #[trigger] v@[k] == spaced(s@)[k],
        decreases s@.len() - i,
    {
        if s[i] == '+' {
            v.push(' ');
        } else {
            v.push(s[i]);
        }
        i += 1;
    }
    assert(v@ =~= spaced(s@));
    let bytes = utf8_of(&string_of(&v));
    text_from(&unpercent_bytes(&bytes))
}

// ── Links ────────────────────────────────────────────────────────────────────

#[derive(Debug, Clone, Copy, PartialEq, Eq, Structural)]
pub enum LinkTransport {
    Udp,
    Uot,
}

impl LinkTransport {
    pub open spec fn text(self) -> Seq<char> {
        match self {
            LinkTransport::Udp => "udp"@,
            LinkTransport::Uot => "uot"@,
        }
    }

    pub fn as_str(self) -> (r: &'static str)
        ensures
            r@ == self.text(),
    {
        match self {
            LinkTransport::Udp => "udp",
            LinkTransport::Uot => "uot",
        }
    }
}

#[derive(Debug, Clone)]
pub struct ShareLink {
    pub key: String,
    pub host: String,
    pub port: u16,
    pub transport: LinkTransport,
    pub tls: bool,
    pub sni: Option<String>,
    pub insecure: bool,
    /// Path of the HTTP upgrade, for a web server in front.
    pub path: Option<String>,
    pub tun: bool,
    pub dns: Option<String>,
    pub owndns: bool,
    pub name: Option<String>,
}

/// What a link says.
#[verifier::ext_equal]
pub struct Link {
    pub key: Seq<char>,
    pub host: Seq<char>,
    pub port: u16,
    pub transport: LinkTransport,
    pub tls: bool,
    pub sni: Option<Seq<char>>,
    pub insecure: bool,
    pub path: Option<Seq<char>>,
    pub tun: bool,
    pub dns: Option<Seq<char>>,
    pub owndns: bool,
    pub name: Option<Seq<char>>,
}

pub open spec fn opt_view(s: Option<String>) -> Option<Seq<char>> {
    match s {
        Some(t) => Some(t@),
        None => None,
    }
}

impl View for ShareLink {
    type V = Link;

    open spec fn view(&self) -> Link {
        Link {
            key: self.key@,
            host: self.host@,
            port: self.port,
            transport: self.transport,
            tls: self.tls,
            sni: opt_view(self.sni),
            insecure: self.insecure,
            path: opt_view(self.path),
            tun: self.tun,
            dns: opt_view(self.dns),
            owndns: self.owndns,
            name: opt_view(self.name),
        }
    }
}

/// Why a text is no link.
#[derive(Debug, Clone, Copy, PartialEq, Eq, Structural)]
pub enum LinkError {
    /// It does not begin with `ostp://`.
    NotALink,
    /// There is no `@`.
    NoKey,
    EmptyKey,
    /// An IPv6 address without its closing bracket.
    Unterminated,
    NoPort,
    NoHost,
    InvalidPort,
    InvalidUtf8,
}

pub open spec fn truthy(v: Seq<char>) -> bool {
    lower(v) == "1"@ || lower(v) == "true"@ || lower(v) == "yes"@
}

pub open spec fn non_empty(v: Seq<char>) -> Option<Seq<char>> {
    if v.len() > 0 {
        Some(v)
    } else {
        None
    }
}

/// A link that says nothing but where the server is.
pub open spec fn plain_link(key: Seq<char>, host: Seq<char>, port: u16) -> Link {
    Link {
        key,
        host,
        port,
        transport: LinkTransport::Udp,
        tls: false,
        sni: None,
        insecure: false,
        path: None,
        tun: false,
        dns: None,
        owndns: false,
        name: None,
    }
}

impl Link {
    /// A parameter with its value; unknown ones say nothing.
    pub open spec fn with(self, k: Seq<char>, v: Seq<char>) -> Link {
        if k == "type"@ {
            Link {
                transport: if lower(v) == "uot"@ || lower(v) == "tcp"@ || lower(v) == "http"@ {
                    LinkTransport::Uot
                } else {
                    LinkTransport::Udp
                },
                ..self
            }
        } else if k == "tls"@ {
            Link { tls: truthy(v), ..self }
        } else if k == "sni"@ {
            Link { sni: non_empty(v), ..self }
        } else if k == "insecure"@ {
            Link { insecure: truthy(v), ..self }
        } else if k == "path"@ {
            Link { path: non_empty(v), ..self }
        } else if k == "tun"@ {
            Link { tun: truthy(v), ..self }
        } else if k == "dns"@ {
            Link { dns: non_empty(v), ..self }
        } else if k == "owndns"@ {
            Link { owndns: truthy(v), ..self }
        } else if k == "name"@ {
            Link { name: non_empty(v), ..self }
        } else {
            self
        }
    }

    /// One `key=value` of the query; an empty one says nothing.
    pub open spec fn with_pair(self, pair: Seq<char>) -> Result<Link, LinkError> {
        if pair.len() == 0 {
            Ok(self)
        } else {
            let (k, v) = match split_once(pair, '=') {
                Some((k, v)) => (k, v),
                None => (pair, Seq::empty()),
            };
            match decoded(v) {
                Some(d) => Ok(self.with(k, d)),
                None => Err(LinkError::InvalidUtf8),
            }
        }
    }

    pub open spec fn with_pairs(self, pairs: Seq<Seq<char>>) -> Result<Link, LinkError>
        decreases pairs.len(),
    {
        if pairs.len() == 0 {
            Ok(self)
        } else {
            match self.with_pairs(pairs.drop_last()) {
                Ok(l) => l.with_pair(pairs.last()),
                Err(e) => Err(e),
            }
        }
    }

    /// TLS and the HTTP upgrade exist over TCP only.
    pub open spec fn settled(self) -> Link {
        if self.tls || self.path is Some {
            Link { transport: LinkTransport::Uot, ..self }
        } else {
            self
        }
    }

    /// `host:port`, an IPv6 address in brackets.
    pub open spec fn server_text(self) -> Seq<char> {
        if has_char(self.host, ':') {
            seq!['['] + self.host + seq![']', ':'] + decimal(self.port as nat)
        } else {
            self.host + seq![':'] + decimal(self.port as nat)
        }
    }

    /// The parameters of the link.
    pub open spec fn params(self) -> Seq<Seq<char>> {
        seq!["type="@ + self.transport.text()] + flag(self.tls, "tls=1"@) + valued("sni="@, self.sni) + flag(
            self.insecure,
            "insecure=1"@,
        ) + valued("path="@, self.path) + flag(self.tun, "tun=true"@) + valued("dns="@, self.dns) + flag(
            self.owndns,
            "owndns=true"@,
        ) + valued("name="@, self.name)
    }

    /// The text of the link.
    pub open spec fn uri(self) -> Seq<char> {
        "ostp://"@ + component(self.key) + seq!['@'] + self.server_text() + seq!['?'] + join(self.params(), "&"@)
    }
}

pub open spec fn flag(on: bool, text: Seq<char>) -> Seq<Seq<char>> {
    if on {
        seq![text]
    } else {
        Seq::empty()
    }
}

pub open spec fn valued(name: Seq<char>, v: Option<Seq<char>>) -> Seq<Seq<char>> {
    match v {
        Some(t) => seq![name + component(t)],
        None => Seq::empty(),
    }
}

/// Host and port of a server; an IPv6 address in brackets.
pub open spec fn split_server(s: Seq<char>) -> Result<(Seq<char>, Seq<char>), LinkError> {
    if s.len() > 0 && s[0] == '[' {
        match split_once(s.subrange(1, s.len() as int), ']') {
            None => Err(LinkError::Unterminated),
            Some((h, p)) => if p.len() > 0 && p[0] == ':' {
                Ok((h, p.subrange(1, p.len() as int)))
            } else {
                Err(LinkError::NoPort)
            },
        }
    } else {
        match rsplit_once(s, ':') {
            Some((h, p)) => Ok((h, p)),
            None => Err(LinkError::NoPort),
        }
    }
}

/// What stands before the first occurrence of a character.
pub open spec fn before(s: Seq<char>, c: char) -> Seq<char> {
    match split_once(s, c) {
        Some((a, _)) => a,
        None => s,
    }
}

/// The link that a text stands for.
pub open spec fn read_link(input: Seq<char>) -> Result<Link, LinkError> {
    let t = trim(input);
    if t.len() < 7 || !eq_nocase(t.subrange(0, 7), "ostp://"@) {
        Err(LinkError::NotALink)
    } else {
        let rest = before(t.subrange(7, t.len() as int), '#');
        let (authority, query) = match split_once(rest, '?') {
            Some((a, q)) => (a, q),
            None => (rest, Seq::empty()),
        };
        match rsplit_once(trim_end_char(authority, '/'), '@') {
            None => Err(LinkError::NoKey),
            Some((k, server)) => match decoded(k) {
                None => Err(LinkError::InvalidUtf8),
                Some(key) => if key.len() == 0 {
                    Err(LinkError::EmptyKey)
                } else {
                    match split_server(server) {
                        Err(e) => Err(e),
                        Ok((host, port)) => if host.len() == 0 {
                            Err(LinkError::NoHost)
                        } else {
                            match parse_number(port, 0xffff) {
                                None => Err(LinkError::InvalidPort),
                                Some(p) => match plain_link(key, host, p as u16).with_pairs(split(query, '&')) {
                                    Ok(l) => Ok(l.settled()),
                                    Err(e) => Err(e),
                                },
                            }
                        },
                    }
                },
            },
        }
    }
}

impl ShareLink {
    pub fn new(key: String, host: String, port: u16) -> (r: Self)
        ensures
            r@ == plain_link(key@, host@, port),
    {
        ShareLink {
            key,
            host,
            port,
            transport: LinkTransport::Udp,
            tls: false,
            sni: None,
            insecure: false,
            path: None,
            tun: false,
            dns: None,
            owndns: false,
            name: None,
        }
    }

    /// `host:port`, an IPv6 address in brackets.
    pub fn server(&self) -> (r: String)
        ensures
            r@ == self@.server_text(),
    {
        let h = chars_of(&self.host);
        let mut v: Vec<char> = Vec::new();
        if holds_char(&h, ':') {
            v.push('[');
            put_str(&mut v, &self.host);
            v.push(']');
            v.push(':');
        } else {
            put_str(&mut v, &self.host);
            v.push(':');
        }
        put_decimal(&mut v, self.port as u64);
        assert(v@ =~= self@.server_text());
        string_of(&v)
    }

    fn set(&mut self, k: &[char], v: String)
        ensures
            final(self)@ == old(self)@.with(k@, v@),
    {
        let c = chars_of(&v);
        let low = to_lower(&c);
        let yes = chars_are(&low, "1") || chars_are(&low, "true") || chars_are(&low, "yes");
        assert(yes == truthy(v@));
        if chars_are(k, "type") {
            self.transport = if chars_are(&low, "uot") || chars_are(&low, "tcp") || chars_are(&low, "http") {
                LinkTransport::Uot
            } else {
                LinkTransport::Udp
            };
        } else if chars_are(k, "tls") {
            self.tls = yes;
        } else if chars_are(k, "sni") {
            self.sni = some_text(v);
        } else if chars_are(k, "insecure") {
            self.insecure = yes;
        } else if chars_are(k, "path") {
            self.path = some_text(v);
        } else if chars_are(k, "tun") {
            self.tun = yes;
        } else if chars_are(k, "dns") {
            self.dns = some_text(v);
        } else if chars_are(k, "owndns") {
            self.owndns = yes;
        } else if chars_are(k, "name") {
            self.name = some_text(v);
        }
        assert(self@ =~= old(self)@.with(k@, v@));
    }

    fn set_pair(&mut self, pair: &[char]) -> (r: Result<(), LinkError>)
        ensures
            match r {
                Ok(_) => old(self)@.with_pair(pair@) == Ok::<Link, LinkError>(final(self)@),
                Err(e) => old(self)@.with_pair(pair@) == Err::<Link, LinkError>(e),
            },
    {
        if pair.len() == 0 {
            return Ok(());
        }
        let (k, v) = match cut(pair, '=') {
            Some((k, v)) => (k, v),
            None => (pair, slice_subrange(pair, 0, 0)),
        };
        assert(pair@.subrange(0, 0) =~= Seq::<char>::empty());
        match decode(v) {
            Some(d) => {
                self.set(k, d);
                Ok(())
            },
            None => Err(LinkError::InvalidUtf8),
        }
    }

    /// Reads a link.
    pub fn parse(input: &str) -> (r: Result<Self, LinkError>)
        ensures
            match r {
                Ok(l) => read_link(input@) == Ok::<Link, LinkError>(l@),
                Err(e) => read_link(input@) == Err::<Link, LinkError>(e),
            },
    {
        let c = chars_of(input);
        let t = trimmed(&c);
        let n: usize = t.len();
        let scheme = chars_of("ostp://");
        if n < 7 || !same_nocase(slice_subrange(t, 0, 7), &scheme) {
            return Err(LinkError::NotALink);
        }
        let whole = slice_subrange(t, 7, n);
        let rest = match cut(whole, '#') {
            Some((a, _)) => a,
            None => whole,
        };
        let (authority, query) = match cut(rest, '?') {
            Some((a, q)) => (a, q),
            None => (rest, slice_subrange(rest, 0, 0)),
        };
        assert(rest@.subrange(0, 0) =~= Seq::<char>::empty());
        let authority = without_trailing(authority, '/');
        let (k, server) = match rcut(authority, '@') {
            Some(x) => x,
            None => {
                return Err(LinkError::NoKey);
            },
        };
        let key = match decode(k) {
            Some(key) => key,
            None => {
                return Err(LinkError::InvalidUtf8);
            },
        };
        if chars_of(&key).len() == 0 {
            return Err(LinkError::EmptyKey);
        }
        let (host, port) = match parse_server(server) {
            Ok(x) => x,
            Err(e) => {
                return Err(e);
            },
        };
        if host.len() == 0 {
            return Err(LinkError::NoHost);
        }
        let p: u16 = match number(port, 0xffff) {
            Some(p) => p as u16,
            None => {
                return Err(LinkError::InvalidPort);
            },
        };
        let mut link = ShareLink::new(key, string_of(host), p);
        let pairs = pieces(query, '&');
        let ghost all = views(pairs@);
        let ghost start = link@;
        let mut i: usize = 0;
        assert(all.subrange(0, 0) =~= Seq::<Seq<char>>::empty());
        while i < pairs.len()
            invariant
                all == views(pairs@),
                i <= pairs@.len(),
                start.with_pairs(all.subrange(0, i as int)) == Ok::<Link, LinkError>(link@),
                read_link(input@) == match start.with_pairs(all) {
                    Ok(l) => Ok::<Link, LinkError>(l.settled()),
                    Err(e) => Err::<Link, LinkError>(e),
                },
            decreases pairs@.len() - i,
        {
            let ghost u = all.subrange(0, i + 1);
            assert(u.drop_last() =~= all.subrange(0, i as int));
            assert(u.last() == pairs@[i as int]@);
            match link.set_pair(&pairs[i]) {
                Ok(_) => {},
                Err(e) => {
                    proof {
                        lemma_error_stays(start, all, i + 1, e);
                    }
                    return Err(e);
                },
            }
            i += 1;
        }
        assert(all.subrange(0, i as int) =~= all);
        if link.tls || link.path.is_some() {
            link.transport = LinkTransport::Uot;
        }
        assert(link@ =~= start.with_pairs(all)->Ok_0.settled());
        Ok(link)
    }

    /// The text of the link.
    pub fn to_uri(&self) -> (r: String)
        ensures
            r@ == self@.uri(),
    {
        let mut q: Vec<String> = Vec::new();
        let mut first = chars_of("type=");
        put_str(&mut first, self.transport.as_str());
        q.push(string_of(&first));
        let ghost p0 = seq!["type="@ + self.transport.text()];
        assert(string_views(q@) =~= p0);
        push_flag(&mut q, self.tls, "tls=1");
        push_valued(&mut q, "sni=", &self.sni);
        push_flag(&mut q, self.insecure, "insecure=1");
        push_valued(&mut q, "path=", &self.path);
        push_flag(&mut q, self.tun, "tun=true");
        push_valued(&mut q, "dns=", &self.dns);
        push_flag(&mut q, self.owndns, "owndns=true");
        push_valued(&mut q, "name=", &self.name);
        assert(string_views(q@) == self@.params());
        let mut v = chars_of("ostp://");
        put_component(&mut v, &self.key);
        v.push('@');
        put_str(&mut v, &self.server());
        v.push('?');
        put_str(&mut v, &join_strings(&q, "&"));
        assert(v@ =~= self@.uri());
        string_of(&v)
    }
}

fn push_flag(q: &mut Vec<String>, on: bool, text: &str)
    ensures
        string_views(final(q)@) == string_views(old(q)@) + flag(on, text@),
{
    if on {
        q.push(owned(text));
    }
    assert(string_views(q@) =~= string_views(old(q)@) + flag(on, text@));
}

fn push_valued(q: &mut Vec<String>, name: &str, v: &Option<String>)
    ensures
        string_views(final(q)@) == string_views(old(q)@) + valued(name@, opt_view(*v)),
{
    if let Some(t) = v {
        let mut s = chars_of(name);
        put_component(&mut s, t);
        q.push(string_of(&s));
    }
    assert(string_views(q@) =~= string_views(old(q)@) + valued(name@, opt_view(*v)));
}

fn some_text(v: String) -> (r: Option<String>)
    ensures
        opt_view(r) == non_empty(v@),
{
    if chars_of(&v).len() > 0 {
        Some(v)
    } else {
        None
    }
}

fn parse_server<'a>(s: &'a [char]) -> (r: Result<(&'a [char], &'a [char]), LinkError>)
    ensures
        match r {
            Ok((h, p)) => split_server(s@) == Ok::<(Seq<char>, Seq<char>), LinkError>((h@, p@)),
            Err(e) => split_server(s@) == Err::<(Seq<char>, Seq<char>), LinkError>(e),
        },
{
    let n: usize = s.len();
    if n > 0 && s[0] == '[' {
        match cut(slice_subrange(s, 1, n), ']') {
            None => Err(LinkError::Unterminated),
            Some((h, p)) => {
                let m: usize = p.len();
                if m > 0 && p[0] == ':' {
                    Ok((h, slice_subrange(p, 1, m)))
                } else {
                    Err(LinkError::NoPort)
                }
            },
        }
    } else {
        match rcut(s, ':') {
            Some((h, p)) => Ok((h, p)),
            None => Err(LinkError::NoPort),
        }
    }
}

proof fn lemma_error_stays(l: Link, pairs: Seq<Seq<char>>, k: int, e: LinkError)
    requires
        0 <= k <= pairs.len(),
        l.with_pairs(pairs.subrange(0, k)) == Err::<Link, LinkError>(e),
    ensures
        l.with_pairs(pairs) == Err::<Link, LinkError>(e),
    decreases pairs.len() - k,
{
    if k < pairs.len() {
        assert(pairs.subrange(0, k + 1).drop_last() =~= pairs.subrange(0, k));
        lemma_error_stays(l, pairs, k + 1, e);
    } else {
        assert(pairs.subrange(0, k) =~= pairs);
    }
}

// ── Round trip ───────────────────────────────────────────────────────────────

/// A character that percent encoding gives out.
pub open spec fn encoded_char(c: char) -> bool {
    crate::text::is_alnum(c) || c == '-' || c == '.' || c == '_' || c == '~' || c == '%'
}

proof fn lemma_percent_chars(b: Seq<u8>)
    ensures
        forall|i: int| 0 <= i < percent_bytes(b).len() ==> encoded_char(#[trigger] percent_bytes(b)[i]),
    decreases b.len(),
{
    if b.len() > 0 {
        lemma_percent_chars(b.drop_last());
        let p = percent_bytes(b.drop_last());
        let e = encoded_byte(b.last());
        assert forall|i: int| 0 <= i < e.len() implies encoded_char(#[trigger] e[i]) by {}
        assert forall|i: int| 0 <= i < percent_bytes(b).len() implies encoded_char(
            #[trigger] percent_bytes(b)[i],
        ) by {
            if i < p.len() {
                assert(encoded_char(p[i]));
            } else {
                assert(encoded_char(e[i - p.len()]));
            }
        }
    }
}

proof fn lemma_percent_front(b: Seq<u8>)
    requires
        b.len() > 0,
    ensures
        percent_bytes(b) == encoded_byte(b[0]) + percent_bytes(b.drop_first()),
    decreases b.len(),
{
    if b.len() == 1 {
        assert(b.drop_last() =~= Seq::<u8>::empty());
        assert(b.drop_first() =~= Seq::<u8>::empty());
        assert(percent_bytes(Seq::<u8>::empty()) =~= Seq::<char>::empty());
        assert(percent_bytes(b) =~= encoded_byte(b[0]));
    } else {
        lemma_percent_front(b.drop_last());
        assert(b.drop_last().drop_first() =~= b.drop_first().drop_last());
        assert(percent_bytes(b) =~= encoded_byte(b[0]) + (percent_bytes(b.drop_first().drop_last()) + encoded_byte(
            b.last(),
        )));
    }
}

/// The bytes of ASCII characters.
spec fn ascii_bytes(s: Seq<char>) -> Seq<u8> {
    Seq::new(s.len(), |i: int| s[i] as u8)
}

proof fn lemma_unpercent(b: Seq<u8>)
    ensures
        unpercent(ascii_bytes(percent_bytes(b))) == b,
    decreases b.len(),
{
    let e = ascii_bytes(percent_bytes(b));
    if b.len() == 0 {
        assert(e =~= Seq::<u8>::empty());
    } else {
        let rest = b.drop_first();
        lemma_percent_front(b);
        lemma_unpercent(rest);
        let first = ascii_bytes(encoded_byte(b[0]));
        assert(e =~= first + ascii_bytes(percent_bytes(rest)));
        if unreserved(b[0]) {
            assert(first =~= seq![b[0]]);
            assert(e[0] == b[0]);
            assert(e.subrange(1, e.len() as int) =~= ascii_bytes(percent_bytes(rest)));
        } else {
            assert(e[0] == 0x25);
            assert(e[1] == upper_hex(b[0] as int / 16) as u8);
            assert(e[2] == upper_hex(b[0] as int % 16) as u8);
            assert(hex_of_byte(e[1]) == Some(b[0] as int / 16));
            assert(hex_of_byte(e[2]) == Some(b[0] as int % 16));
            assert(e.subrange(3, e.len() as int) =~= ascii_bytes(percent_bytes(rest)));
        }
        assert(seq![b[0]] + rest =~= b);
    }
}

/// Reading an encoded part gives back the text that was encoded, whatever it
/// holds.
pub proof fn components_round_trip(s: Seq<char>)
    ensures
        decoded(component(s)) == Some(s),
        forall|i: int| 0 <= i < component(s).len() ==> encoded_char(#[trigger] component(s)[i]),
{
    let c = component(s);
    lemma_percent_chars(encode_utf8(s));
    assert(spaced(c) =~= c) by {
        assert forall|i: int| 0 <= i < c.len() implies spaced(c)[i] == c[i] by {
            assert(encoded_char(c[i]));
        }
    }
    assert(is_ascii_chars(c)) by {
        assert forall|i: int| 0 <= i < c.len() implies '\0' <= #[trigger] c[i] <= '\u{7f}' by {
            assert(encoded_char(c[i]));
        }
    }
    is_ascii_chars_encode_utf8(c);
    assert(encode_utf8(c) =~= ascii_bytes(c)) by {
        assert forall|i: int| 0 <= i < c.len() implies encode_utf8(c)[i] == ascii_bytes(c)[i] by {
            assert(c[i] as u8 == encode_utf8(c)[i]);
        }
    }
    lemma_unpercent(encode_utf8(s));
    lemma_text_of_encoded(s);
}

/// Text of letters and digits is its own encoding.
proof fn lemma_plain_component(s: Seq<char>)
    requires
        forall|i: int| 0 <= i < s.len() ==> crate::text::is_alnum(#[trigger] s[i]),
    ensures
        component(s) == s,
{
    assert(is_ascii_chars(s)) by {
        assert forall|i: int| 0 <= i < s.len() implies '\0' <= #[trigger] s[i] <= '\u{7f}' by {
            assert(crate::text::is_alnum(s[i]));
        }
    }
    is_ascii_chars_encode_utf8(s);
    let b = encode_utf8(s);
    assert(b =~= ascii_bytes(s)) by {
        assert forall|i: int| 0 <= i < s.len() implies b[i] == ascii_bytes(s)[i] by {
            assert(s[i] as u8 == b[i]);
        }
    }
    lemma_plain_percent(s);
}

proof fn lemma_plain_percent(s: Seq<char>)
    requires
        forall|i: int| 0 <= i < s.len() ==> crate::text::is_alnum(#[trigger] s[i]),
    ensures
        percent_bytes(ascii_bytes(s)) == s,
    decreases s.len(),
{
    let b = ascii_bytes(s);
    if s.len() > 0 {
        assert forall|i: int| 0 <= i < s.drop_last().len() implies crate::text::is_alnum(
            #[trigger] s.drop_last()[i],
        ) by {
            assert(crate::text::is_alnum(s[i]));
        }
        lemma_plain_percent(s.drop_last());
        assert(b.drop_last() =~= ascii_bytes(s.drop_last()));
        assert(crate::text::is_alnum(s[s.len() - 1]));
        assert(percent_bytes(b) =~= s);
    } else {
        assert(percent_bytes(b) =~= s);
    }
}

/// A parameter as it is written is read as its name and its value.
proof fn lemma_pair(l: Link, name: Seq<char>, v: Seq<char>)
    requires
        !has_char(name, '='),
    ensures
        l.with_pair(name + seq!['='] + component(v)) == Ok::<Link, LinkError>(l.with(name, v)),
{
    let p = name + seq!['='] + component(v);
    assert forall|k: int| 0 <= k < name.len() implies p[k] != '=' by {
        assert(p[k] == name[k]);
    }
    lemma_find_char_is(p, '=', name.len() as int);
    assert(p.subrange(0, name.len() as int) =~= name);
    assert(p.subrange(name.len() as int + 1, p.len() as int) =~= component(v));
    components_round_trip(v);
}

/// Reading one list of parameters after another.
proof fn lemma_pairs_add(l: Link, a: Seq<Seq<char>>, b: Seq<Seq<char>>)
    requires
        l.with_pairs(a) is Ok,
    ensures
        l.with_pairs(a + b) == l.with_pairs(a)->Ok_0.with_pairs(b),
    decreases b.len(),
{
    let m = l.with_pairs(a)->Ok_0;
    if b.len() == 0 {
        assert(a + b =~= a);
    } else {
        lemma_pairs_add(l, a, b.drop_last());
        assert((a + b).drop_last() =~= a + b.drop_last());
        assert((a + b).last() == b.last());
    }
}

proof fn lemma_one_pair(l: Link, p: Seq<char>)
    ensures
        l.with_pairs(seq![p]) == l.with_pair(p),
{
    assert(seq![p].drop_last() =~= Seq::<Seq<char>>::empty());
    assert(l.with_pairs(Seq::<Seq<char>>::empty()) == Ok::<Link, LinkError>(l));
    assert(seq![p].last() == p);
}

/// A switch that is written as `name=value` where it is on.
proof fn lemma_flag(l: Link, done: Seq<Seq<char>>, m: Link, on: bool, text: Seq<char>, name: Seq<char>, v: Seq<char>)
    requires
        l.with_pairs(done) == Ok::<Link, LinkError>(m),
        text == name + seq!['='] + v,
        !has_char(name, '='),
        forall|i: int| 0 <= i < v.len() ==> crate::text::is_alnum(#[trigger] v[i]),
    ensures
        l.with_pairs(done + flag(on, text)) == Ok::<Link, LinkError>(
            if on {
                m.with(name, v)
            } else {
                m
            },
        ),
{
    lemma_pairs_add(l, done, flag(on, text));
    if on {
        lemma_plain_component(v);
        lemma_pair(m, name, v);
        lemma_one_pair(m, text);
    } else {
        assert(m.with_pairs(Seq::<Seq<char>>::empty()) == Ok::<Link, LinkError>(m));
    }
}

/// A text that is written as `name=text` where there is one.
proof fn lemma_valued(l: Link, done: Seq<Seq<char>>, m: Link, text: Seq<char>, name: Seq<char>, v: Option<Seq<char>>)
    requires
        l.with_pairs(done) == Ok::<Link, LinkError>(m),
        text == name + seq!['='],
        !has_char(name, '='),
    ensures
        l.with_pairs(done + valued(text, v)) == Ok::<Link, LinkError>(
            match v {
                Some(t) => m.with(name, t),
                None => m,
            },
        ),
{
    lemma_pairs_add(l, done, valued(text, v));
    match v {
        Some(t) => {
            lemma_pair(m, name, t);
            lemma_one_pair(m, text + component(t));
        },
        None => {
            assert(m.with_pairs(Seq::<Seq<char>>::empty()) == Ok::<Link, LinkError>(m));
        },
    }
}

/// A link that says all it can say: its key and texts are not empty, its host
/// can be told from what stands around it, and TLS and an upgrade path come with
/// the transport that carries them.
pub open spec fn expressible(l: Link) -> bool {
    &&& l.key.len() > 0
    &&& l.host.len() > 0
    &&& !has_char(l.host, '#') && !has_char(l.host, '?') && !has_char(l.host, '@')
    &&& has_char(l.host, ':') ==> !has_char(l.host, ']')
    &&& !has_char(l.host, ':') ==> l.host[0] != '['
    &&& l.sni matches Some(t) ==> t.len() > 0
    &&& l.path matches Some(t) ==> t.len() > 0
    &&& l.dns matches Some(t) ==> t.len() > 0
    &&& l.name matches Some(t) ==> t.len() > 0
    &&& l.tls || l.path is Some ==> l.transport == LinkTransport::Uot
}

proof fn lemma_params_read(l: Link)
    requires
        expressible(l),
    ensures
        plain_link(l.key, l.host, l.port).with_pairs(l.params()) == Ok::<Link, LinkError>(l),
{
    reveal_strlit("type=");
    reveal_strlit("type");
    reveal_strlit("udp");
    reveal_strlit("uot");
    reveal_strlit("tcp");
    reveal_strlit("http");
    reveal_strlit("tls=1");
    reveal_strlit("tls");
    reveal_strlit("1");
    reveal_strlit("true");
    reveal_strlit("yes");
    reveal_strlit("sni=");
    reveal_strlit("sni");
    reveal_strlit("insecure=1");
    reveal_strlit("insecure");
    reveal_strlit("path=");
    reveal_strlit("path");
    reveal_strlit("tun=true");
    reveal_strlit("tun");
    reveal_strlit("dns=");
    reveal_strlit("dns");
    reveal_strlit("owndns=true");
    reveal_strlit("owndns");
    reveal_strlit("name=");
    reveal_strlit("name");
    let base = plain_link(l.key, l.host, l.port);
    let tt = l.transport.text();
    assert forall|i: int| 0 <= i < tt.len() implies crate::text::is_alnum(#[trigger] tt[i]) by {}
    lemma_plain_component(tt);
    assert("type="@ =~= "type"@ + seq!['=']);
    let p0 = seq!["type="@ + tt];
    lemma_pair(base, "type"@, tt);
    lemma_one_pair(base, "type="@ + tt);
    let m0 = base.with("type"@, tt);
    assert(lower(tt) =~= tt);
    assert("udp"@[1] == 'd' && "uot"@[1] == 'o' && "tcp"@[0] == 't');
    assert("udp"@[0] == 'u');
    assert(m0.transport == l.transport);
    let p1 = p0 + flag(l.tls, "tls=1"@);
    assert("tls=1"@ =~= "tls"@ + seq!['='] + "1"@);
    lemma_flag(base, p0, m0, l.tls, "tls=1"@, "tls"@, "1"@);
    assert(lower("1"@) =~= "1"@);
    assert(lower("true"@) =~= "true"@);
    let m1 = Link { tls: l.tls, ..m0 };
    assert(base.with_pairs(p1) == Ok::<Link, LinkError>(m1));
    let p2 = p1 + valued("sni="@, l.sni);
    assert("sni="@ =~= "sni"@ + seq!['=']);
    lemma_valued(base, p1, m1, "sni="@, "sni"@, l.sni);
    let m2 = Link { sni: l.sni, ..m1 };
    assert(base.with_pairs(p2) == Ok::<Link, LinkError>(m2));
    let p3 = p2 + flag(l.insecure, "insecure=1"@);
    assert("insecure=1"@ =~= "insecure"@ + seq!['='] + "1"@);
    lemma_flag(base, p2, m2, l.insecure, "insecure=1"@, "insecure"@, "1"@);
    let m3 = Link { insecure: l.insecure, ..m2 };
    assert(base.with_pairs(p3) == Ok::<Link, LinkError>(m3));
    let p4 = p3 + valued("path="@, l.path);
    assert("path="@ =~= "path"@ + seq!['=']);
    lemma_valued(base, p3, m3, "path="@, "path"@, l.path);
    let m4 = Link { path: l.path, ..m3 };
    assert(base.with_pairs(p4) == Ok::<Link, LinkError>(m4));
    let p5 = p4 + flag(l.tun, "tun=true"@);
    assert("tun=true"@ =~= "tun"@ + seq!['='] + "true"@);
    lemma_flag(base, p4, m4, l.tun, "tun=true"@, "tun"@, "true"@);
    assert(truthy("true"@));
    assert("tun"@[1] == 'u' && "tls"@[1] == 'l' && "sni"@[1] == 'n');
    let m5 = Link { tun: l.tun, ..m4 };
    assert(base.with_pairs(p5) == Ok::<Link, LinkError>(m5));
    let p6 = p5 + valued("dns="@, l.dns);
    assert("dns"@[0] == 'd');
    assert("dns="@ =~= "dns"@ + seq!['=']);
    lemma_valued(base, p5, m5, "dns="@, "dns"@, l.dns);
    let m6 = Link { dns: l.dns, ..m5 };
    assert(base.with_pairs(p6) == Ok::<Link, LinkError>(m6));
    let p7 = p6 + flag(l.owndns, "owndns=true"@);
    assert("owndns=true"@ =~= "owndns"@ + seq!['='] + "true"@);
    lemma_flag(base, p6, m6, l.owndns, "owndns=true"@, "owndns"@, "true"@);
    let m7 = Link { owndns: l.owndns, ..m6 };
    assert(base.with_pairs(p7) == Ok::<Link, LinkError>(m7));
    assert("name="@ =~= "name"@ + seq!['=']);
    lemma_valued(base, p7, m7, "name="@, "name"@, l.name);
    assert(l.params() == p7 + valued("name="@, l.name));
}

/// A character of a parameter.
spec fn param_char(c: char) -> bool {
    encoded_char(c) || c == '='
}

spec fn param_text(s: Seq<char>) -> bool {
    s.len() > 0 && forall|i: int| 0 <= i < s.len() ==> param_char(#[trigger] s[i])
}

spec fn all_params(s: Seq<Seq<char>>) -> bool {
    forall|i: int| 0 <= i < s.len() ==> param_text(#[trigger] s[i])
}

proof fn lemma_more_params(a: Seq<Seq<char>>, b: Seq<Seq<char>>)
    requires
        all_params(a),
        all_params(b),
    ensures
        all_params(a + b),
{
    assert forall|i: int| 0 <= i < (a + b).len() implies param_text(#[trigger] (a + b)[i]) by {
        if i < a.len() {
            assert(param_text(a[i]));
        } else {
            assert(param_text(b[i - a.len()]));
        }
    }
}

proof fn lemma_flag_chars()
    ensures
        param_text("tls=1"@),
        param_text("insecure=1"@),
        param_text("tun=true"@),
        param_text("owndns=true"@),
        param_text("sni="@),
        param_text("path="@),
        param_text("dns="@),
        param_text("name="@),
{
    reveal_strlit("tls=1");
    reveal_strlit("sni=");
    reveal_strlit("insecure=1");
    reveal_strlit("path=");
    reveal_strlit("tun=true");
    reveal_strlit("dns=");
    reveal_strlit("owndns=true");
    reveal_strlit("name=");
}

proof fn lemma_param_chars(l: Link)
    ensures
        l.params().len() > 0,
        forall|i: int| 0 <= i < l.params().len() ==> param_text(#[trigger] l.params()[i]),
{
    assert(param_text("type="@ + l.transport.text())) by {
        reveal_strlit("type=");
        reveal_strlit("udp");
        reveal_strlit("uot");
    }
    lemma_flag_chars();
    lemma_valued_chars("sni="@, l.sni);
    lemma_valued_chars("path="@, l.path);
    lemma_valued_chars("dns="@, l.dns);
    lemma_valued_chars("name="@, l.name);
    let p0 = seq!["type="@ + l.transport.text()];
    let p1 = p0 + flag(l.tls, "tls=1"@);
    lemma_more_params(p0, flag(l.tls, "tls=1"@));
    let p2 = p1 + valued("sni="@, l.sni);
    lemma_more_params(p1, valued("sni="@, l.sni));
    let p3 = p2 + flag(l.insecure, "insecure=1"@);
    lemma_more_params(p2, flag(l.insecure, "insecure=1"@));
    let p4 = p3 + valued("path="@, l.path);
    lemma_more_params(p3, valued("path="@, l.path));
    let p5 = p4 + flag(l.tun, "tun=true"@);
    lemma_more_params(p4, flag(l.tun, "tun=true"@));
    let p6 = p5 + valued("dns="@, l.dns);
    lemma_more_params(p5, valued("dns="@, l.dns));
    let p7 = p6 + flag(l.owndns, "owndns=true"@);
    lemma_more_params(p6, flag(l.owndns, "owndns=true"@));
    lemma_more_params(p7, valued("name="@, l.name));
    assert(l.params() == p7 + valued("name="@, l.name));
}

proof fn lemma_valued_chars(name: Seq<char>, v: Option<Seq<char>>)
    requires
        param_text(name),
    ensures
        forall|i: int| 0 <= i < valued(name, v).len() ==> param_text(#[trigger] valued(name, v)[i]),
{
    if let Some(t) = v {
        components_round_trip(t);
        let s = name + component(t);
        assert forall|i: int| 0 <= i < s.len() implies param_char(#[trigger] s[i]) by {
            if i < name.len() {
                assert(param_char(name[i]));
            } else {
                assert(encoded_char(component(t)[i - name.len()]));
            }
        }
        assert(param_text(s));
    }
}

proof fn lemma_server_read(l: Link)
    requires
        expressible(l),
    ensures
        split_server(l.server_text()) == Ok::<(Seq<char>, Seq<char>), LinkError>((l.host, decimal(l.port as nat))),
{
    let s = l.server_text();
    let d = decimal(l.port as nat);
    let n = l.host.len() as int;
    lemma_decimal_digits(l.port as nat);
    if has_char(l.host, ':') {
        let t = s.subrange(1, s.len() as int);
        assert(t =~= l.host + seq![']', ':'] + d);
        assert forall|k: int| 0 <= k < n implies t[k] != ']' by {
            assert(t[k] == l.host[k]);
        }
        lemma_find_char_is(t, ']', n);
        assert(t.subrange(0, n) =~= l.host);
        let p = t.subrange(n + 1, t.len() as int);
        assert(p =~= seq![':'] + d);
        assert(p.subrange(1, p.len() as int) =~= d);
        assert(s[0] == '[');
    } else {
        assert(s[0] == l.host[0]);
        assert forall|k: int| n < k < s.len() implies s[k] != ':' by {
            assert(s[k] == d[k - n - 1]);
            assert(is_digit(d[k - n - 1]));
        }
        lemma_rfind_char_is(s, ':', n);
        assert(s.subrange(0, n) =~= l.host);
        assert(s.subrange(n + 1, s.len() as int) =~= d);
    }
}

/// A server as it is written ends in a digit, and holds no character that would
/// end it.
proof fn lemma_server_chars(l: Link)
    requires
        expressible(l),
    ensures
        l.server_text().len() > 0,
        is_digit(l.server_text().last()),
        !has_char(l.server_text(), '#'),
        !has_char(l.server_text(), '?'),
        !has_char(l.server_text(), '@'),
{
    let s = l.server_text();
    let d = decimal(l.port as nat);
    lemma_decimal_digits(l.port as nat);
    assert(s.last() == d.last());
    assert(is_digit(d[d.len() - 1]));
    assert forall|k: int| 0 <= k < s.len() implies s[k] != '#' && s[k] != '?' && s[k] != '@' by {
        let m = s.len() - d.len();
        if k >= m {
            assert(s[k] == d[k - m]);
            assert(is_digit(d[k - m]));
        } else if has_char(l.host, ':') {
            if 1 <= k <= l.host.len() {
                assert(s[k] == l.host[k - 1]);
            }
        } else if k < l.host.len() {
            assert(s[k] == l.host[k]);
        }
    }
}

/// A query holds the characters of parameters and what stands between them.
pub proof fn lemma_query_chars(l: Link)
    ensures
        forall|k: int|
            0 <= k < join(l.params(), "&"@).len() ==> #[trigger] join(l.params(), "&"@)[k] == '&' || join(
                l.params(),
                "&"@,
            )[k] == '=' || encoded_char(join(l.params(), "&"@)[k]),
{
    reveal_strlit("&");
    let params = l.params();
    let q = join(params, "&"@);
    lemma_param_chars(l);
    assert forall|k: int| 0 <= k < q.len() implies #[trigger] q[k] == '&' || param_char(q[k]) by {
        lemma_join_chars(params, "&"@, k);
        if has_char("&"@, q[k]) {
        } else {
            let i = choose|i: int| 0 <= i < params.len() && has_char(#[trigger] params[i], q[k]);
            assert(param_text(params[i]));
            let j = choose|j: int| 0 <= j < params[i].len() && #[trigger] params[i][j] == q[k];
            assert(param_char(params[i][j]));
        }
    }
}

spec fn authority_text(key: Seq<char>, server: Seq<char>) -> Seq<char> {
    key + seq!['@'] + server
}

proof fn lemma_authority(key: Seq<char>, server: Seq<char>)
    requires
        server.len() > 0,
        server.last() != '/',
        forall|k: int| 0 <= k < server.len() ==> #[trigger] server[k] != '@',
    ensures
        rsplit_once(trim_end_char(authority_text(key, server), '/'), '@') == Some((key, server)),
{
    let a = authority_text(key, server);
    let n = key.len() as int;
    assert(a.last() == server.last());
    assert(trim_end_char(a, '/') == a);
    assert forall|k: int| n < k < a.len() implies a[k] != '@' by {
        assert(a[k] == server[k - n - 1]);
    }
    lemma_rfind_char_is(a, '@', n);
    assert(a.subrange(0, n) =~= key);
    assert(a.subrange(n + 1, a.len() as int) =~= server);
}

proof fn lemma_link_parts(authority: Seq<char>, q: Seq<char>)
    requires
        q.len() > 0,
        !is_white(q.last()),
        forall|k: int| 0 <= k < authority.len() ==> #[trigger] authority[k] != '#' && authority[k] != '?',
        forall|k: int| 0 <= k < q.len() ==> #[trigger] q[k] != '#',
    ensures
        ({
            let u = "ostp://"@ + (authority + seq!['?'] + q);
            let rest = before(u.subrange(7, u.len() as int), '#');
            &&& u.len() >= 7
            &&& trim(u) == u
            &&& u.subrange(0, 7) == "ostp://"@
            &&& split_once(rest, '?') == Some((authority, q))
        }),
{
    reveal_strlit("ostp://");
    let rest = authority + seq!['?'] + q;
    let u = "ostp://"@ + rest;
    let n = authority.len() as int;
    assert(u[0] == 'o');
    assert(u.last() == q.last());
    assert(trim(u) == u);
    assert(u.subrange(0, 7) =~= "ostp://"@);
    assert(u.subrange(7, u.len() as int) =~= rest);
    assert forall|k: int| 0 <= k < rest.len() implies rest[k] != '#' by {
        if k < n {
            assert(rest[k] == authority[k]);
        } else if k > n {
            assert(rest[k] == q[k - n - 1]);
        }
    }
    lemma_find_char_none(rest, '#');
    assert(before(rest, '#') == rest);
    assert forall|k: int| 0 <= k < n implies rest[k] != '?' by {
        assert(rest[k] == authority[k]);
    }
    lemma_find_char_is(rest, '?', n);
    assert(rest.subrange(0, n) =~= authority);
    assert(rest.subrange(n + 1, rest.len() as int) =~= q);
}

proof fn lemma_query(l: Link)
    ensures
        ({
            let q = join(l.params(), "&"@);
            &&& q.len() > 0
            &&& !is_white(q.last())
            &&& forall|k: int| 0 <= k < q.len() ==> #[trigger] q[k] != '#'
            &&& split(q, '&') == l.params()
        }),
{
    reveal_strlit("&");
    assert("&"@ =~= seq!['&']);
    let params = l.params();
    let q = join(params, "&"@);
    lemma_param_chars(l);
    lemma_query_chars(l);
    assert(q.len() > 0) by {
        assert(param_text(params[0]));
        if params.len() > 1 {
            assert(param_text(params[params.len() - 1]));
        }
    }
    assert(q.last() == q[q.len() - 1]);
    assert forall|i: int| 0 <= i < params.len() implies !has_char(#[trigger] params[i], '&') by {
        assert(param_text(params[i]));
        if has_char(params[i], '&') {
            let j = choose|j: int| 0 <= j < params[i].len() && #[trigger] params[i][j] == '&';
            assert(param_char(params[i][j]));
        }
    }
    lemma_split_join(params, '&');
}

/// The link that is read from a link's text is that link.
pub proof fn links_round_trip(l: Link)
    requires
        expressible(l),
    ensures
        read_link(l.uri()) == Ok::<Link, LinkError>(l),
{
    let u = l.uri();
    let key = component(l.key);
    let server = l.server_text();
    let q = join(l.params(), "&"@);
    let authority = authority_text(key, server);
    components_round_trip(l.key);
    lemma_server_chars(l);
    assert(u =~= "ostp://"@ + (authority + seq!['?'] + q));
    assert forall|k: int| 0 <= k < authority.len() implies #[trigger] authority[k] != '#' && authority[k] != '?' by {
        if k < key.len() {
            assert(encoded_char(key[k]));
        } else if k > key.len() {
            assert(authority[k] == server[k - key.len() - 1]);
        }
    }
    lemma_query(l);
    lemma_link_parts(authority, q);
    lemma_authority(key, server);
    lemma_server_read(l);
    lemma_parse_decimal(l.port as nat, 0xffff);
    lemma_params_read(l);
    assert(l.settled() =~= l);
}

/// A link whose connection is that of TLS, or goes through a web server, goes over TCP.
pub proof fn web_links_go_over_tcp(input: Seq<char>)
    ensures
        read_link(input) matches Ok(l) && (l.tls || l.path is Some) ==> read_link(input)->Ok_0.transport
            == LinkTransport::Uot,
        read_link(input) matches Ok(l) ==> l.key.len() > 0 && l.host.len() > 0,
{
    if read_link(input) is Ok {
        let t = trim(input);
        let rest = before(t.subrange(7, t.len() as int), '#');
        let (authority, query) = match split_once(rest, '?') {
            Some((a, q)) => (a, q),
            None => (rest, Seq::empty()),
        };
        let (k, server) = rsplit_once(trim_end_char(authority, '/'), '@')->Some_0;
        let (host, port) = split_server(server)->Ok_0;
        let p = parse_number(port, 0xffff)->Some_0;
        lemma_pairs_keep(plain_link(decoded(k)->Some_0, host, p as u16), split(query, '&'));
    }
}

proof fn lemma_pairs_keep(l: Link, pairs: Seq<Seq<char>>)
    ensures
        l.with_pairs(pairs) matches Ok(m) ==> m.key == l.key && m.host == l.host && m.port == l.port,
    decreases pairs.len(),
{
    if pairs.len() > 0 {
        lemma_pairs_keep(l, pairs.drop_last());
    }
}

/// Each parameter of a link sets its own field and no other.
pub proof fn parameters_set_their_fields(l: Link, k: Seq<char>, v: Seq<char>)
    ensures
        lower(v) == "tcp"@ || lower(v) == "uot"@ || lower(v) == "http"@ ==> l.with("type"@, v).transport
            == LinkTransport::Uot,
        lower(v) != "tcp"@ && lower(v) != "uot"@ && lower(v) != "http"@ ==> l.with("type"@, v).transport
            == LinkTransport::Udp,
        l.with(k, v).key == l.key && l.with(k, v).host == l.host && l.with(k, v).port == l.port,
        l.with(k, v).tls == if k == "tls"@ {
            lower(v) == "1"@ || lower(v) == "true"@ || lower(v) == "yes"@
        } else {
            l.tls
        },
        l.with(k, v).insecure == if k == "insecure"@ {
            lower(v) == "1"@ || lower(v) == "true"@ || lower(v) == "yes"@
        } else {
            l.insecure
        },
        l.with(k, v).tun == if k == "tun"@ {
            lower(v) == "1"@ || lower(v) == "true"@ || lower(v) == "yes"@
        } else {
            l.tun
        },
        l.with(k, v).owndns == if k == "owndns"@ {
            lower(v) == "1"@ || lower(v) == "true"@ || lower(v) == "yes"@
        } else {
            l.owndns
        },
        v.len() > 0 ==> l.with(k, v).sni == if k == "sni"@ {
            Some(v)
        } else {
            l.sni
        },
        v.len() > 0 ==> l.with(k, v).path == if k == "path"@ {
            Some(v)
        } else {
            l.path
        },
        v.len() > 0 ==> l.with(k, v).dns == if k == "dns"@ {
            Some(v)
        } else {
            l.dns
        },
        v.len() > 0 ==> l.with(k, v).name == if k == "name"@ {
            Some(v)
        } else {
            l.name
        },
        k != "type"@ ==> l.with(k, v).transport == l.transport,
{
    reveal_strlit("type");
    reveal_strlit("tls");
    reveal_strlit("sni");
    reveal_strlit("insecure");
    reveal_strlit("path");
    reveal_strlit("tun");
    reveal_strlit("dns");
    reveal_strlit("owndns");
    reveal_strlit("name");
    assert("owndns"@.len() == 6 && "insecure"@.len() == 8 && "dns"@.len() == 3 && "name"@.len() == 4);
    assert("tls"@[0] != "sni"@[0] && "tls"@[1] != "tun"@[1] && "tls"@[0] != "dns"@[0]);
    assert("sni"@[0] != "tun"@[0] && "sni"@[0] != "dns"@[0] && "tun"@[0] != "dns"@[0]);
    assert("type"@[0] != "path"@[0] && "type"@[0] != "name"@[0] && "path"@[0] != "name"@[0]);
}

} // verus!
