//! Upstream resolvers: plain datagrams and connections, DNS over HTTPS, DNS over
//! TLS.

use vstd::prelude::*;
use vstd::slice::slice_subrange;

use crate::dns::settings::UpstreamMode;
use crate::net::{ip_of, read_ip, read_socket, show_socket, socket_of, SocketAddr};
use crate::text::{
    all_digits, begins_str, chars_of, decimal, digit, is_digit, joined, number, owned, parse_number, put_decimal,
    put_str, rcut, rsplit_once, starts_with, string_of, string_views, trim, trim_end_char, trimmed, without_trailing,
};

verus! {

/// Nanoseconds that an upstream gets to answer.
pub const UPSTREAM_TIMEOUT_NANOS: u64 = 4_000_000_000;

#[derive(Debug, Clone)]
pub enum Upstream {
    Udp(SocketAddr),
    Tcp(SocketAddr),
    /// DNS over HTTPS, at an address.
    Doh(String),
    /// DNS over TLS.
    Dot { host: String, port: u16 },
}

/// An upstream resolver.
pub enum Place {
    Udp(SocketAddr),
    Tcp(SocketAddr),
    Doh(Seq<char>),
    Dot(Seq<char>, u16),
}

impl View for Upstream {
    type V = Place;

    open spec fn view(&self) -> Place {
        match *self {
            Upstream::Udp(a) => Place::Udp(a),
            Upstream::Tcp(a) => Place::Tcp(a),
            Upstream::Doh(u) => Place::Doh(u@),
            Upstream::Dot { host, port } => Place::Dot(host@, port),
        }
    }
}

#[derive(Debug, Clone, Copy, PartialEq, Eq, Structural)]
pub enum UpstreamError {
    /// Not an address, with a port or without one.
    NotAnAddress,
    NoHost,
    InvalidPort,
}

pub open spec fn bracket(c: char) -> bool {
    c == '[' || c == ']'
}

pub open spec fn unbracketed_start(s: Seq<char>) -> Seq<char>
    decreases s.len(),
{
    if s.len() > 0 && bracket(s[0]) {
        unbracketed_start(s.drop_first())
    } else {
        s
    }
}

pub open spec fn unbracketed_end(s: Seq<char>) -> Seq<char>
    decreases s.len(),
{
    if s.len() > 0 && bracket(s.last()) {
        unbracketed_end(s.drop_last())
    } else {
        s
    }
}

/// An address with its port, or an address that gets a port.
pub open spec fn addressed(s: Seq<char>, default: u16) -> Option<SocketAddr> {
    match read_socket(s) {
        Some(a) => Some(a),
        None => match read_ip(unbracketed_end(unbracketed_start(s))) {
            Some(ip) => Some(SocketAddr { ip, port: default, scope_id: 0 }),
            None => None,
        },
    }
}

/// Host and port of a resolver over TLS.
pub open spec fn tls_place(rest: Seq<char>) -> Result<Place, UpstreamError> {
    let t = trim_end_char(rest, '/');
    match rsplit_once(t, ':') {
        Some((h, p)) => if all_digits(p) {
            match parse_number(p, 0xffff) {
                None => Err(UpstreamError::InvalidPort),
                Some(n) => if h.len() == 0 {
                    Err(UpstreamError::NoHost)
                } else {
                    Ok(Place::Dot(h, n as u16))
                },
            }
        } else if t.len() == 0 {
            Err(UpstreamError::NoHost)
        } else {
            Ok(Place::Dot(t, 853))
        },
        None => if t.len() == 0 {
            Err(UpstreamError::NoHost)
        } else {
            Ok(Place::Dot(t, 853))
        },
    }
}

/// The upstream that a text stands for.
#[verifier::opaque]
pub open spec fn read_upstream(text: Seq<char>) -> Result<Place, UpstreamError> {
    let s = trim(text);
    if starts_with(s, "https://"@) {
        Ok(Place::Doh(s))
    } else if starts_with(s, "tls://"@) {
        tls_place(s.subrange(6, s.len() as int))
    } else if starts_with(s, "tcp://"@) {
        match addressed(s.subrange(6, s.len() as int), 53) {
            Some(a) => Ok(Place::Tcp(a)),
            None => Err(UpstreamError::NotAnAddress),
        }
    } else {
        let rest = if starts_with(s, "udp://"@) {
            s.subrange(6, s.len() as int)
        } else {
            s
        };
        match addressed(rest, 53) {
            Some(a) => Ok(Place::Udp(a)),
            None => Err(UpstreamError::NotAnAddress),
        }
    }
}

fn unbracket<'a>(s: &'a [char]) -> (r: &'a [char])
    ensures
        r@ == unbracketed_end(unbracketed_start(s@)),
{
    let n: usize = s.len();
    let mut i: usize = 0;
    assert(s@.subrange(0, n as int) =~= s@);
    while i < n && (s[i] == '[' || s[i] == ']')
        invariant
            n == s@.len(),
            i <= n,
            unbracketed_start(s@) == unbracketed_start(s@.subrange(i as int, n as int)),
        decreases n - i,
    {
        assert(s@.subrange(i as int, n as int).drop_first() =~= s@.subrange(i + 1, n as int));
        i += 1;
    }
    let t = slice_subrange(s, i, n);
    assert(t@ == unbracketed_start(s@));
    let mut j: usize = t.len();
    assert(t@.subrange(0, t@.len() as int) =~= t@);
    while j > 0 && (t[j - 1] == '[' || t[j - 1] == ']')
        invariant
            j <= t@.len(),
            unbracketed_end(t@) == unbracketed_end(t@.subrange(0, j as int)),
        decreases j,
    {
        assert(t@.subrange(0, j as int).drop_last() =~= t@.subrange(0, j - 1));
        j -= 1;
    }
    slice_subrange(t, 0, j)
}

fn with_port(s: &[char], default: u16) -> (r: Option<SocketAddr>)
    ensures
        r == addressed(s@, default),
{
    if let Some(a) = socket_of(&string_of(s)) {
        return Some(a);
    }
    match ip_of(&string_of(unbracket(s))) {
        Some(ip) => Some(SocketAddr { ip, port: default, scope_id: 0 }),
        None => None,
    }
}

fn digits_only(p: &[char]) -> (r: bool)
    ensures
        r == all_digits(p@),
{
    let mut i: usize = 0;
    while i < p.len()
        invariant
            i <= p@.len(),
            forall|k: int| 0 <= k < i ==> is_digit(#[trigger] p@[k]),
        decreases p@.len() - i,
    {
        if !digit(p[i]) {
            return false;
        }
        i += 1;
    }
    true
}

fn parse_tls(rest: &[char]) -> (r: Result<Upstream, UpstreamError>)
    ensures
        match r {
            Ok(u) => tls_place(rest@) == Ok::<Place, UpstreamError>(u@),
            Err(e) => tls_place(rest@) == Err::<Place, UpstreamError>(e),
        },
{
    let t = without_trailing(rest, '/');
    if let Some((h, p)) = rcut(t, ':') {
        if digits_only(p) {
            return match number(p, 0xffff) {
                None => Err(UpstreamError::InvalidPort),
                Some(n) => {
                    if h.len() == 0 {
                        Err(UpstreamError::NoHost)
                    } else {
                        Ok(Upstream::Dot { host: string_of(h), port: n as u16 })
                    }
                },
            };
        }
    }
    if t.len() == 0 {
        Err(UpstreamError::NoHost)
    } else {
        Ok(Upstream::Dot { host: string_of(t), port: 853 })
    }
}

impl Upstream {
    /// The upstream that a text stands for: `https://host/dns-query`, `tls://host`,
    /// `tcp://ip`, `udp://ip` or a bare address.
    pub fn parse(text: &str) -> (r: Result<Upstream, UpstreamError>)
        ensures
            match r {
                Ok(u) => read_upstream(text@) == Ok::<Place, UpstreamError>(u@),
                Err(e) => read_upstream(text@) == Err::<Place, UpstreamError>(e),
            },
    {
        proof {
            reveal(read_upstream);
            reveal_strlit("tls://");
            reveal_strlit("tcp://");
            reveal_strlit("udp://");
        }
        let c = chars_of(text);
        let s = trimmed(&c);
        let n: usize = s.len();
        if begins_str(s, "https://") {
            return Ok(Upstream::Doh(string_of(s)));
        }
        if begins_str(s, "tls://") {
            return parse_tls(slice_subrange(s, 6, n));
        }
        if begins_str(s, "tcp://") {
            return match with_port(slice_subrange(s, 6, n), 53) {
                Some(a) => Ok(Upstream::Tcp(a)),
                None => Err(UpstreamError::NotAnAddress),
            };
        }
        let rest = if begins_str(s, "udp://") {
            slice_subrange(s, 6, n)
        } else {
            s
        };
        match with_port(rest, 53) {
            Some(a) => Ok(Upstream::Udp(a)),
            None => Err(UpstreamError::NotAnAddress),
        }
    }

    /// The upstream as a text.
    pub fn label(&self) -> (r: String)
        ensures
            r@ == self@.text(),
    {
        match self {
            Upstream::Udp(a) => {
                let mut v = chars_of("udp://");
                put_str(&mut v, &a.text());
                string_of(&v)
            },
            Upstream::Tcp(a) => {
                let mut v = chars_of("tcp://");
                put_str(&mut v, &a.text());
                string_of(&v)
            },
            Upstream::Doh(u) => owned(u),
            Upstream::Dot { host, port } => {
                let mut v = chars_of("tls://");
                put_str(&mut v, host);
                put_str(&mut v, ":");
                put_decimal(&mut v, *port as u64);
                string_of(&v)
            },
        }
    }
}

impl Place {
    pub open spec fn text(self) -> Seq<char> {
        match self {
            Place::Udp(a) => "udp://"@ + show_socket(a),
            Place::Tcp(a) => "tcp://"@ + show_socket(a),
            Place::Doh(u) => u,
            Place::Dot(host, port) => "tls://"@ + host + ":"@ + decimal(port as nat),
        }
    }
}

pub open spec fn places(v: Seq<Upstream>) -> Seq<Place> {
    Seq::new(v.len(), |i: int| v[i]@)
}

/// The upstreams that texts stand for, or the error of the first that stands for
/// none.
pub open spec fn read_upstreams(specs: Seq<Seq<char>>) -> Result<Seq<Place>, UpstreamError>
    decreases specs.len(),
{
    if specs.len() == 0 {
        Ok(Seq::empty())
    } else {
        match read_upstreams(specs.drop_last()) {
            Err(e) => Err(e),
            Ok(all) => match read_upstream(specs.last()) {
                Ok(p) => Ok(all.push(p)),
                Err(e) => Err(e),
            },
        }
    }
}

proof fn lemma_first_error(specs: Seq<Seq<char>>, k: int, e: UpstreamError)
    requires
        0 <= k <= specs.len(),
        read_upstreams(specs.subrange(0, k)) == Err::<Seq<Place>, UpstreamError>(e),
    ensures
        read_upstreams(specs) == Err::<Seq<Place>, UpstreamError>(e),
    decreases specs.len() - k,
{
    if k < specs.len() {
        assert(specs.subrange(0, k + 1).drop_last() =~= specs.subrange(0, k));
        lemma_first_error(specs, k + 1, e);
    } else {
        assert(specs.subrange(0, k) =~= specs);
    }
}

/// The upstreams that texts stand for.
pub fn parse_upstreams(specs: &Vec<String>) -> (r: Result<Vec<Upstream>, UpstreamError>)
    ensures
        match r {
            Ok(v) => read_upstreams(string_views(specs@)) == Ok::<Seq<Place>, UpstreamError>(places(v@)),
            Err(e) => read_upstreams(string_views(specs@)) == Err::<Seq<Place>, UpstreamError>(e),
        },
{
    let ghost all = string_views(specs@);
    let mut out: Vec<Upstream> = Vec::new();
    let mut i: usize = 0;
    assert(all.subrange(0, 0) =~= Seq::<Seq<char>>::empty());
    assert(places(out@) =~= Seq::<Place>::empty());
    while i < specs.len()
        invariant
            all == string_views(specs@),
            i <= specs@.len(),
            read_upstreams(all.subrange(0, i as int)) == Ok::<Seq<Place>, UpstreamError>(places(out@)),
        decreases specs@.len() - i,
    {
        let ghost u = all.subrange(0, i + 1);
        assert(u.drop_last() =~= all.subrange(0, i as int));
        assert(u.last() == specs@[i as int]@);
        let ghost before = out@;
        match Upstream::parse(&specs[i]) {
            Ok(p) => {
                out.push(p);
                assert(places(out@) =~= places(before).push(p@));
            },
            Err(e) => {
                proof {
                    lemma_first_error(all, i + 1, e);
                }
                return Err(e);
            },
        }
        i += 1;
    }
    assert(all.subrange(0, i as int) =~= all);
    Ok(out)
}

/// The texts of upstreams.
pub fn labels(list: &Vec<Upstream>) -> (r: Vec<String>)
    ensures
        r@.len() == list@.len(),
        forall|i: int| 0 <= i < r@.len() ==> (#[trigger] r@[i])@ == list@[i]@.text(),
{
    let mut out: Vec<String> = Vec::new();
    let mut i: usize = 0;
    while i < list.len()
        invariant
            i <= list@.len(),
            out@.len() == i,
            forall|k: int| 0 <= k < i ==> (#[trigger] out@[k])@ == list@[k]@.text(),
        decreases list@.len() - i,
    {
        out.push(list[i].label());
        i += 1;
    }
    out
}

/// Whether a datagram answers a query: it holds a header, and the query's number.
pub fn is_answer(query: &[u8], datagram: &[u8]) -> (r: bool)
    requires
        query@.len() >= 2,
    ensures
        r == (datagram@.len() >= 12 && datagram@[0] == query@[0] && datagram@[1] == query@[1]),
{
    datagram.len() >= 12 && datagram[0] == query[0] && datagram[1] == query[1]
}

/// Whether an answer was cut off: it is asked for again over a connection.
pub fn is_truncated(answer: &[u8]) -> (r: bool)
    ensures
        r == (answer@.len() > 2 && answer@[2] & 2 != 0),
{
    answer.len() > 2 && answer[2] & 2 != 0
}

/// Whether an answer holds a whole header.
pub fn is_whole(answer: &[u8]) -> (r: bool)
    ensures
        r == (answer@.len() >= 12),
{
    answer.len() >= 12
}

// ── Asking ───────────────────────────────────────────────────────────────────

/// Upstreams, and how they are asked: one after the other, or all at once.
pub struct Upstreams {
    pub list: Vec<Upstream>,
    pub mode: UpstreamMode,
}

/// What is done for a question next.
pub enum AskStep {
    /// Ask `count` upstreams, from the one at `first` on.
    Ask { first: usize, count: usize },
    /// Others were asked and may still answer.
    Wait,
    Answer { answer: Vec<u8>, upstream: String },
    Fail(String),
}

/// What is done for a question next.
pub enum AskTurn {
    Ask(int, int),
    Wait,
    Answer(Seq<u8>, Seq<char>),
    Fail(Seq<char>),
}

impl View for AskStep {
    type V = AskTurn;

    open spec fn view(&self) -> AskTurn {
        match *self {
            AskStep::Ask { first, count } => AskTurn::Ask(first as int, count as int),
            AskStep::Wait => AskTurn::Wait,
            AskStep::Answer { answer, upstream } => AskTurn::Answer(answer@, upstream@),
            AskStep::Fail(why) => AskTurn::Fail(why@),
        }
    }
}

/// A question on its way: how many upstreams were asked, and how many of them have not
/// been heard from.
pub struct Asking {
    pub asked: usize,
    pub waiting: usize,
}

/// What is done with a question at first.
pub open spec fn first_turn(list: Seq<Place>, mode: UpstreamMode) -> (Asking, AskTurn) {
    if list.len() == 0 {
        (Asking { asked: 0, waiting: 0 }, AskTurn::Fail("no upstream resolvers configured"@))
    } else {
        let count = match mode {
            UpstreamMode::Fallback => 1usize,
            UpstreamMode::Parallel => list.len() as usize,
        };
        (Asking { asked: count, waiting: count }, AskTurn::Ask(0, count as int))
    }
}

/// Why an upstream gave no answer, with its name.
pub open spec fn failure(p: Place, why: Seq<char>) -> Seq<char> {
    p.text() + ": "@ + why
}

impl Asking {
    /// What is done once an upstream was heard from.
    pub open spec fn heard(self, list: Seq<Place>, which: int, result: Result<Seq<u8>, Seq<char>>) -> (Asking, AskTurn) {
        match result {
            Ok(a) if a.len() >= 12 => (self, AskTurn::Answer(a, list[which].text())),
            _ => {
                let why = match result {
                    Ok(_) => "short answer"@,
                    Err(e) => e,
                };
                if self.waiting > 1 {
                    (Asking { asked: self.asked, waiting: (self.waiting - 1) as usize }, AskTurn::Wait)
                } else if self.asked < list.len() {
                    (
                        Asking { asked: (self.asked + 1) as usize, waiting: 1 },
                        AskTurn::Ask(self.asked as int, 1),
                    )
                } else {
                    (Asking { asked: self.asked, waiting: 0 }, AskTurn::Fail(failure(list[which], why)))
                }
            },
        }
    }
}

impl Upstreams {
    pub fn new(specs: &Vec<String>, mode: UpstreamMode) -> (r: Result<Self, UpstreamError>)
        ensures
            match r {
                Ok(u) => u.mode == mode && read_upstreams(string_views(specs@)) == Ok::<Seq<Place>, UpstreamError>(
                    places(u.list@),
                ),
                Err(e) => read_upstreams(string_views(specs@)) == Err::<Seq<Place>, UpstreamError>(e),
            },
    {
        match parse_upstreams(specs) {
            Ok(list) => Ok(Upstreams { list, mode }),
            Err(e) => Err(e),
        }
    }

    /// Begins with a question.
    pub fn query(&self) -> (r: (Asking, AskStep))
        ensures
            (r.0, r.1@) == first_turn(places(self.list@), self.mode),
    {
        let len: usize = self.list.len();
        if len == 0 {
            return (Asking { asked: 0, waiting: 0 }, AskStep::Fail(owned("no upstream resolvers configured")));
        }
        let count: usize = match self.mode {
            UpstreamMode::Fallback => 1,
            UpstreamMode::Parallel => len,
        };
        (Asking { asked: count, waiting: count }, AskStep::Ask { first: 0, count })
    }

    /// The upstream at `which` has answered, or has not for a reason.
    pub fn on_result(&self, asking: &mut Asking, which: usize, result: Result<Vec<u8>, String>) -> (r: AskStep)
        requires
            which < self.list@.len(),
        ensures
            (*final(asking), r@) == old(asking).heard(
                places(self.list@),
                which as int,
                match result {
                    Ok(a) => Ok(a@),
                    Err(e) => Err(e@),
                },
            ),
    {
        let why: String = match result {
            Ok(answer) => {
                if is_whole(&answer) {
                    return AskStep::Answer { answer, upstream: self.list[which].label() };
                }
                owned("short answer")
            },
            Err(e) => e,
        };
        if asking.waiting > 1 {
            asking.waiting = asking.waiting - 1;
            AskStep::Wait
        } else if asking.asked < self.list.len() {
            let first: usize = asking.asked;
            asking.asked = first + 1;
            asking.waiting = 1;
            AskStep::Ask { first, count: 1 }
        } else {
            asking.waiting = 0;
            let head = joined(&self.list[which].label(), ": ");
            AskStep::Fail(joined(&head, &why))
        }
    }
}

/// What is done with a question after the first upstreams, asked in turn, gave no answer
/// for these reasons.
pub open spec fn after_failures(list: Seq<Place>, whys: Seq<Seq<char>>) -> (Asking, AskTurn)
    decreases whys.len(),
{
    if whys.len() == 0 {
        first_turn(list, UpstreamMode::Fallback)
    } else {
        after_failures(list, whys.drop_last()).0.heard(list, whys.len() - 1, Err(whys.last()))
    }
}

/// Upstreams that are asked in turn are asked until one answers: where those before it
/// failed, the next is asked, and only once all have failed the question does, for the
/// reason of the last.
pub proof fn failures_lead_to_the_next_upstream(list: Seq<Place>, whys: Seq<Seq<char>>)
    requires
        0 < list.len() <= usize::MAX,
        whys.len() <= list.len(),
    ensures
        whys.len() < list.len() ==> after_failures(list, whys) == (
            Asking { asked: (whys.len() + 1) as usize, waiting: 1 },
            AskTurn::Ask(whys.len() as int, 1),
        ),
        whys.len() == list.len() ==> after_failures(list, whys).1 == AskTurn::Fail(failure(list.last(), whys.last())),
    decreases whys.len(),
{
    if whys.len() > 0 {
        failures_lead_to_the_next_upstream(list, whys.drop_last());
    }
}

/// A whole answer is given, with the name of the upstream that gave it; what is shorter than a
/// header is none.
pub proof fn whole_answers_are_given(q: Asking, list: Seq<Place>, which: int, a: Seq<u8>)
    ensures
        a.len() >= 12 ==> q.heard(list, which, Ok(a)).1 == AskTurn::Answer(a, list[which].text()),
        a.len() < 12 ==> !(q.heard(list, which, Ok(a)).1 is Answer),
{
}

/// Upstreams that are asked at once are all asked, and while one of them has not been heard from,
/// a failure is no reason to fail.
pub proof fn upstreams_are_asked_at_once(list: Seq<Place>, q: Asking, which: int, why: Seq<char>)
    requires
        0 < list.len() <= usize::MAX,
    ensures
        first_turn(list, UpstreamMode::Parallel) == (
            Asking { asked: list.len() as usize, waiting: list.len() as usize },
            AskTurn::Ask(0, list.len() as int),
        ),
        first_turn(list, UpstreamMode::Fallback) == (Asking { asked: 1, waiting: 1 }, AskTurn::Ask(0, 1)),
        q.waiting > 1 ==> q.heard(list, which, Err(why)).1 == AskTurn::Wait && q.heard(list, which, Err(why)).0.waiting
            == q.waiting - 1,
        q.waiting <= 1 && q.asked >= list.len() ==> q.heard(list, which, Err(why)).1 == AskTurn::Fail(
            list[which].text() + ": "@ + why,
        ),
{
}

/// An address without a port is asked at port 53, and one of a TLS resolver at port 853.
pub proof fn upstreams_have_their_ports(s: Seq<char>, ip: crate::net::IpAddr, host: Seq<char>, port: u16)
    ensures
        trim(s) == s && s.len() > 0 && !bracket(s[0]) && !bracket(s.last()) && read_socket(s) is None && read_ip(s) == Some(
            ip,
        ) && !starts_with(s, "https://"@) && !starts_with(s, "tls://"@) && !starts_with(s, "tcp://"@) && !starts_with(
            s,
            "udp://"@,
        ) ==> read_upstream(s) == Ok::<Place, UpstreamError>(Place::Udp(SocketAddr { ip, port: 53, scope_id: 0 })),
        host.len() > 0 && host.last() != '/' && !crate::text::has_char(host, ':') ==> tls_place(host) == Ok::<Place, UpstreamError>(
            Place::Dot(host, 853),
        ),
        host.len() > 0 ==> tls_place(host + ":"@ + decimal(port as nat)) == Ok::<Place, UpstreamError>(
            Place::Dot(host, port),
        ),
        tls_place(Seq::empty()) == Err::<Place, UpstreamError>(UpstreamError::NoHost),
{
    reveal(read_upstream);
    reveal_strlit(":");
    if s.len() > 0 && !bracket(s[0]) && !bracket(s.last()) {
        assert(unbracketed_start(s) == s);
        assert(unbracketed_end(s) == s);
    }
    if host.len() > 0 && host.last() != '/' && !crate::text::has_char(host, ':') {
        assert(trim_end_char(host, '/') == host);
        crate::text::cuts_are_at_the_character(host, ':');
    }
    if host.len() > 0 {
        let d = decimal(port as nat);
        crate::text::lemma_decimal_digits(port as nat);
        crate::text::lemma_parse_decimal(port as nat, 0xffff);
        let t = host + ":"@ + d;
        assert(t.last() == d.last());
        assert(is_digit(d[d.len() - 1]));
        assert(trim_end_char(t, '/') == t);
        let i = host.len() as int;
        assert(t[i] == ':');
        assert forall|k: int| i < k < t.len() implies t[k] != ':' by {
            assert(t[k] == d[k - i - 1]);
            assert(is_digit(d[k - i - 1]));
        }
        crate::text::lemma_rfind_char_is(t, ':', i);
        assert(t.subrange(0, i) =~= host);
        assert(t.subrange(i + 1, t.len() as int) =~= d);
    }
    let e = Seq::<char>::empty();
    assert(trim_end_char(e, '/') == e);
    assert(crate::text::rfind_char(e, ':') is None);
}

/// Where resolvers are asked over HTTPS, the whole address counts.
pub proof fn https_addresses_stay_whole(s: Seq<char>)
    requires
        trim(s) == s,
        starts_with(s, "https://"@),
    ensures
        read_upstream(s) == Ok::<Place, UpstreamError>(Place::Doh(s)),
        Place::Doh(s).text() == s,
{
    reveal(read_upstream);
}

/// Upstreams are read one by one, in their order, and only where all of them can be.
pub proof fn upstreams_are_read_in_order(specs: Seq<Seq<char>>, i: int)
    requires
        0 <= i < specs.len(),
    ensures
        read_upstreams(specs) matches Ok(v) ==> v.len() == specs.len() && read_upstream(specs[i]) == Ok::<Place, UpstreamError>(
            v[i],
        ),
        read_upstream(specs[i]) is Err ==> read_upstreams(specs) is Err,
    decreases specs.len(),
{
    let d = specs.drop_last();
    if d.len() > 0 {
        if i < d.len() {
            assert(d[i] == specs[i]);
            upstreams_are_read_in_order(d, i);
        } else {
            upstreams_are_read_in_order(d, 0);
        }
    } else {
        assert(read_upstreams(d) == Ok::<Seq<Place>, UpstreamError>(Seq::empty()));
        assert(specs[i] == specs.last());
    }
}

} // verus!
