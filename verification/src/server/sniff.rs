//! Telling the server's own traffic from everything else on the same port.
//!
//! The first byte decides: the high byte of a frame length, a TLS hello, a
//! capital letter of an HTTP request, or something else, which is read as frames
//! too. An HTTP request is the upgrade on the secret path, a subscription, the
//! panel, or anything else, which gets the decoy.

use vstd::prelude::*;
use vstd::slice::{slice_subrange, slice_to_vec};
use vstd::utf8::encode_utf8;

use crate::bytes::{be16, copy_range, get_u16, put_slice, put_u16, u16_at};
use crate::http::{header, http_head, opt_chars, parse_head, same_secret, trimmed_header, Head, RequestHead};
use crate::http_upgrade::{
    accept_key, build_upgrade_response, find_head_end, head_end, upgrade_response, ws_accept_key, MAX_HEAD_BYTES,
};
use crate::net::{ip_of, read_ip, IpAddr, SocketAddr};
use crate::server::limiter::{is_trusted_proxy, ConnLimiter, Windows};
use crate::server::subscription::{under, Fetch, SubscriptionService};
use crate::server::users::{Book, Users};
use crate::text::{
    chars_of, eq_nocase, last_position, owned, pieces, put_str, rfind_char, same_nocase, split, split_once, string_of,
    trim, trimmed, utf8_of, views, cut,
};
use crate::time::Instant;

verus! {

/// Nanoseconds that a connection gets to show what it is.
pub const CLASSIFY_TIMEOUT_NANOS: u64 = 10_000_000_000;

/// Connections that have not shown what they are; beyond this new ones are
/// dropped.
pub const MAX_PENDING: usize = 2048;

/// What a connection looks like by its first byte.
#[derive(Debug, Clone, Copy, PartialEq, Eq, Structural)]
pub enum Class {
    Uot,
    Tls,
    Http,
    Legacy,
}

pub open spec fn class_of(first: u8) -> Class {
    if first <= 5 {
        Class::Uot
    } else if first == 0x16 {
        Class::Tls
    } else if 0x41 <= first <= 0x5a {
        Class::Http
    } else {
        Class::Legacy
    }
}

pub fn classify(first: u8) -> (r: Class)
    ensures
        r == class_of(first),
{
    if first <= 5 {
        Class::Uot
    } else if first == 0x16 {
        Class::Tls
    } else if 0x41 <= first && first <= 0x5a {
        Class::Http
    } else {
        Class::Legacy
    }
}

/// What other traffic gets.
#[derive(Debug, Clone)]
pub enum Decoy {
    /// A bare 404 for HTTP; anything else is closed.
    NotFound,
    /// A real web server.
    Proxy(String),
}

/// A path that is proxied to the management interface.
#[derive(Debug, Clone)]
pub struct PanelRoute {
    pub prefix: String,
    pub upstream: String,
}

impl PanelRoute {
    pub open spec fn covers(&self, path: Seq<char>) -> bool {
        path == self.prefix@ || under(path, self.prefix@)
    }

    pub fn matches(&self, path: &str) -> (r: bool)
        ensures
            r == self.covers(path@),
    {
        let p = chars_of(path);
        let f = chars_of(&self.prefix);
        let n: usize = p.len();
        let m: usize = f.len();
        if !crate::text::begins(&p, &f) {
            assert(path@ == self.prefix@ ==> path@.subrange(0, m as int) =~= self.prefix@);
            return false;
        }
        assert(p@.subrange(m as int, n as int).len() == n - m);
        if n == m {
            assert(p@ =~= p@.subrange(0, m as int));
            true
        } else {
            assert(p@.subrange(m as int, n as int)[0] == p@[m as int]);
            p[m] == '/'
        }
    }
}

// ── Upgrades ─────────────────────────────────────────────────────────────────

/// An upgrade that is accepted.
#[derive(Debug, Clone)]
pub struct Upgrade {
    pub ws_key: String,
    /// The client's address, as a trusted local web server reported it.
    pub forwarded_for: Option<IpAddr>,
}

/// A local web server in front.
pub open spec fn trusted(peer: SocketAddr) -> bool {
    peer.ip.canonical().loopback()
}

/// Whether one of the names in a list, whatever its case, is `name`.
pub open spec fn lists(v: Seq<char>, name: Seq<char>) -> bool {
    exists|i: int| 0 <= i < split(v, ',').len() && eq_nocase(trim(#[trigger] split(v, ',')[i]), name)
}

/// What stands after the last comma; all where there is none.
pub open spec fn after_last_comma(v: Seq<char>) -> Seq<char> {
    match rfind_char(v, ',') {
        Some(i) => v.subrange(i + 1, v.len() as int),
        None => v,
    }
}

/// The address that a local web server reports.
pub open spec fn forwarded(h: Head) -> Option<IpAddr> {
    let direct = match trimmed_header(h, "x-real-ip"@) {
        Some(v) => read_ip(v),
        None => None,
    };
    match direct {
        Some(ip) => Some(ip),
        None => match trimmed_header(h, "x-forwarded-for"@) {
            Some(v) => read_ip(trim(after_last_comma(v))),
            None => None,
        },
    }
}

/// The upgrade that a head asks for on the secret path: `GET` and the whole shape
/// of a WebSocket handshake. Anything else is none, so that the secret path looks
/// like any other.
pub open spec fn upgrade_in(h: Head, ws_path: Seq<char>, trusted: bool) -> Option<(Seq<char>, Option<IpAddr>)> {
    let path = match h.1 {
        Some(p) => p,
        None => Seq::empty(),
    };
    let key = trimmed_header(h, "sec-websocket-key"@);
    if h.0 == Some("GET"@) && path == ws_path && (trimmed_header(h, "upgrade"@) matches Some(v) && eq_nocase(
        v,
        "websocket"@,
    )) && (trimmed_header(h, "connection"@) matches Some(v) && lists(v, "upgrade"@)) && (key matches Some(k)
        && k.len() > 0) {
        Some(
            (
                key->Some_0,
                if trusted {
                    forwarded(h)
                } else {
                    None
                },
            ),
        )
    } else {
        None
    }
}

/// The upgrade that a request asks for.
pub open spec fn upgrade_of(head: Option<Head>, ws_path: Option<Seq<char>>, trusted: bool) -> Option<
    (Seq<char>, Option<IpAddr>),
> {
    match (head, ws_path) {
        (Some(h), Some(p)) => upgrade_in(h, p, trusted),
        _ => None,
    }
}

pub open spec fn upgrade_view(u: Option<Upgrade>) -> Option<(Seq<char>, Option<IpAddr>)> {
    match u {
        Some(u) => Some((u.ws_key@, u.forwarded_for)),
        None => None,
    }
}

pub open spec fn opt_str(s: Option<&str>) -> Option<Seq<char>> {
    match s {
        Some(t) => Some(t@),
        None => None,
    }
}

fn is_listed(v: &str, name: &str) -> (r: bool)
    ensures
        r == lists(v@, name@),
{
    let n = chars_of(name);
    let parts = pieces(&chars_of(v), ',');
    let mut i: usize = 0;
    while i < parts.len()
        invariant
            n@ == name@,
            i <= parts@.len(),
            views(parts@) == split(v@, ','),
            forall|k: int| 0 <= k < i ==> !eq_nocase(trim(#[trigger] views(parts@)[k]), name@),
        decreases parts@.len() - i,
    {
        if same_nocase(trimmed(&parts[i]), &n) {
            assert(eq_nocase(trim(views(parts@)[i as int]), name@));
            return true;
        }
        i += 1;
    }
    false
}

fn reported_address(h: &RequestHead) -> (r: Option<IpAddr>)
    ensures
        r == forwarded(h@),
{
    if let Some(v) = h.trimmed_header("x-real-ip") {
        if let Some(ip) = ip_of(&v) {
            return Some(ip);
        }
    }
    match h.trimmed_header("x-forwarded-for") {
        Some(v) => {
            let c = chars_of(&v);
            let n: usize = c.len();
            let last = match last_position(&c, ',') {
                Some(i) => slice_subrange(&c, i + 1, n),
                None => slice_subrange(&c, 0, n),
            };
            assert(c@.subrange(0, n as int) =~= c@);
            ip_of(&string_of(trimmed(last)))
        },
        None => None,
    }
}

fn same_path(path: &Option<String>, ws_path: &str) -> (r: bool)
    ensures
        r == ((match *path {
            Some(p) => p@,
            None => Seq::empty(),
        }) == ws_path@),
{
    let a = match path {
        Some(p) => utf8_of(p),
        None => {
            proof {
                lemma_no_bytes();
            }
            Vec::new()
        },
    };
    let b = utf8_of(ws_path);
    proof {
        let p = match path {
            Some(p) => p@,
            None => Seq::empty(),
        };
        assert(a@ =~= encode_utf8(p));
        crate::text::lemma_text_of_encoded(p);
        crate::text::lemma_text_of_encoded(ws_path@);
    }
    same_secret(&a, &b)
}

proof fn lemma_no_bytes()
    ensures
        encode_utf8(Seq::<char>::empty()) == Seq::<u8>::empty(),
{
    assert(vstd::utf8::is_ascii_chars(Seq::<char>::empty()));
    vstd::utf8::is_ascii_chars_encode_utf8(Seq::<char>::empty());
    assert(encode_utf8(Seq::<char>::empty()) =~= Seq::<u8>::empty());
}

fn is_method(m: &Option<String>, name: &str) -> (r: bool)
    ensures
        r == (opt_chars(*m) == Some(name@)),
{
    match m {
        Some(m) => crate::text::same_str(m, name),
        None => false,
    }
}

/// The upgrade to `ws_path` that a head asks for.
pub fn head_upgrade(h: &RequestHead, ws_path: &str, peer: SocketAddr) -> (r: Option<Upgrade>)
    ensures
        upgrade_view(r) == upgrade_in(h@, ws_path@, trusted(peer)),
{
    if !is_method(&h.method, "GET") {
        return None;
    }
    if !same_path(&h.path, ws_path) {
        return None;
    }
    let ok = match h.trimmed_header("upgrade") {
        Some(v) => same_nocase(&chars_of(&v), &chars_of("websocket")),
        None => false,
    };
    if !ok {
        return None;
    }
    let ok = match h.trimmed_header("connection") {
        Some(v) => is_listed(&v, "upgrade"),
        None => false,
    };
    if !ok {
        return None;
    }
    match h.trimmed_header("sec-websocket-key") {
        Some(k) => {
            if chars_of(&k).len() == 0 {
                return None;
            }
            let forwarded_for = if is_trusted_proxy(peer) {
                reported_address(h)
            } else {
                None
            };
            Some(Upgrade { ws_key: k, forwarded_for })
        },
        None => None,
    }
}

/// The upgrade to `ws_path` that a request asks for. Only a local web server is
/// believed about who the client is.
pub fn parse_upgrade(head: &[u8], ws_path: Option<&str>, peer: SocketAddr) -> (r: Option<Upgrade>)
    ensures
        upgrade_view(r) == upgrade_of(http_head(head@), opt_str(ws_path), trusted(peer)),
{
    let p = match ws_path {
        Some(p) => p,
        None => {
            return None;
        },
    };
    match parse_head(head) {
        Some(h) => head_upgrade(&h, p, peer),
        None => None,
    }
}

/// Why a request is no upgrade to `ws_path`; nothing where it is one, or where it
/// is not meant to be one.
pub open spec fn problem(head: Option<Head>, ws_path: Option<Seq<char>>) -> Option<Seq<char>> {
    match ws_path {
        None => Some("no ws_path is configured (tls.ws_path)"@),
        Some(w) => match head {
            None => Some("malformed HTTP request"@),
            Some(h) => {
                let path = match h.1 {
                    Some(p) => p,
                    None => Seq::empty(),
                };
                if path != w {
                    match header(h, "upgrade"@) {
                        Some(_) => Some("upgrade for "@ + path + ", but tls.ws_path is a different path"@),
                        None => None,
                    }
                } else if h.0 != Some("GET"@) {
                    Some(
                        (match h.0 {
                            Some(m) => m,
                            None => "?"@,
                        }) + " instead of GET"@,
                    )
                } else if !(trimmed_header(h, "upgrade"@) matches Some(v) && eq_nocase(v, "websocket"@)) {
                    Some(
                        "no \"Upgrade: websocket\" header (the web server must pass it: proxy_set_header Upgrade $http_upgrade)"@,
                    )
                } else if !(header(h, "connection"@) matches Some(v) && lists(v, "upgrade"@)) {
                    Some("no \"Connection: upgrade\" header (proxy_set_header Connection \"upgrade\")"@)
                } else if !(trimmed_header(h, "sec-websocket-key"@) matches Some(k) && k.len() > 0) {
                    Some("no Sec-WebSocket-Key header"@)
                } else {
                    None
                }
            },
        },
    }
}

/// Why the head of a request is no upgrade to `ws_path`, for the log.
pub fn upgrade_problem(head: &[u8], ws_path: Option<&str>) -> (r: Option<String>)
    ensures
        opt_chars(r) == problem(http_head(head@), opt_str(ws_path)),
{
    let w = match ws_path {
        Some(w) => w,
        None => {
            return Some(owned("no ws_path is configured (tls.ws_path)"));
        },
    };
    let h = match parse_head(head) {
        Some(h) => h,
        None => {
            return Some(owned("malformed HTTP request"));
        },
    };
    if !same_path(&h.path, w) {
        return match h.header("upgrade") {
            Some(_) => {
                let mut v = chars_of("upgrade for ");
                let ghost start = v@;
                if let Some(p) = &h.path {
                    put_str(&mut v, p);
                }
                put_str(&mut v, ", but tls.ws_path is a different path");
                assert(v@ =~= problem(http_head(head@), opt_str(ws_path))->Some_0);
                Some(string_of(&v))
            },
            None => None,
        };
    }
    if !is_method(&h.method, "GET") {
        let mut v = match &h.method {
            Some(m) => chars_of(m),
            None => chars_of("?"),
        };
        put_str(&mut v, " instead of GET");
        return Some(string_of(&v));
    }
    let ok = match h.trimmed_header("upgrade") {
        Some(v) => same_nocase(&chars_of(&v), &chars_of("websocket")),
        None => false,
    };
    if !ok {
        return Some(
            owned(
                "no \"Upgrade: websocket\" header (the web server must pass it: proxy_set_header Upgrade $http_upgrade)",
            ),
        );
    }
    let ok = match h.header("connection") {
        Some(v) => is_listed(&v, "upgrade"),
        None => false,
    };
    if !ok {
        return Some(owned("no \"Connection: upgrade\" header (proxy_set_header Connection \"upgrade\")"));
    }
    let ok = match h.trimmed_header("sec-websocket-key") {
        Some(k) => chars_of(&k).len() > 0,
        None => false,
    };
    if !ok {
        return Some(owned("no Sec-WebSocket-Key header"));
    }
    None
}

/// The path of a request, without its query.
pub open spec fn path_of(head: Option<Head>) -> Option<Seq<char>> {
    match head {
        Some(h) => match h.1 {
            Some(p) => Some(
                match split_once(p, '?') {
                    Some((a, _)) => a,
                    None => p,
                },
            ),
            None => None,
        },
        None => None,
    }
}

/// The path of a request, without its query.
pub fn request_path(head: &[u8]) -> (r: Option<String>)
    ensures
        opt_chars(r) == path_of(http_head(head@)),
{
    match parse_head(head) {
        Some(h) => match &h.path {
            Some(p) => {
                let c = chars_of(p);
                match cut(&c, '?') {
                    Some((a, _)) => Some(string_of(a)),
                    None => Some(owned(p)),
                }
            },
            None => None,
        },
        None => None,
    }
}

// ── Routing ──────────────────────────────────────────────────────────────────

pub open spec fn too_many() -> Seq<u8> {
    encode_utf8("HTTP/1.1 429 Too Many Requests\r\nContent-Length: 0\r\nConnection: close\r\n\r\n"@)
}

pub open spec fn not_found() -> Seq<u8> {
    encode_utf8(
        "HTTP/1.1 404 Not Found\r\nContent-Type: text/html\r\nContent-Length: 48\r\nConnection: close\r\n\r\n<html><body><h1>404 Not Found</h1></body></html>"@,
    )
}

/// What a listener serves.
#[derive(Debug)]
pub struct Site {
    /// There is a certificate: TLS is ended here.
    pub tls: bool,
    /// Anything but TLS is closed.
    pub tls_required: bool,
    pub panel: Option<PanelRoute>,
    /// The secret path of the upgrade.
    pub ws_path: Option<String>,
    pub subscription: Option<SubscriptionService>,
    pub decoy: Decoy,
}

/// What is done with a connection.
#[derive(Debug)]
pub enum ConnAction {
    Close,
    /// More bytes are needed.
    ReadMore,
    /// TLS is ended, and what is inside is looked at.
    EndTls,
    /// The connection carries frames, of which these bytes are the first.
    Frames { first: Vec<u8> },
    /// A request for HTTP.
    Http,
    /// The bytes are sent, and the connection is closed.
    Reply { bytes: Vec<u8> },
    /// The bytes are sent, and the connection then carries frames.
    Upgrade { response: Vec<u8>, first: Vec<u8> },
    /// The connection is spliced to `target`, which first gets these bytes.
    Splice { target: String, first: Vec<u8> },
    /// The document of a subscription is sent.
    Serve { fetch: Fetch },
}

/// What is done with a connection.
pub enum Turn {
    Close,
    ReadMore,
    EndTls,
    Frames(Seq<u8>),
    Http,
    Reply(Seq<u8>),
    Upgrade(Seq<u8>, Seq<u8>),
    Splice(Seq<char>, Seq<u8>),
    Serve(crate::server::subscription::Asked, crate::subscription::Doc),
}

impl View for ConnAction {
    type V = Turn;

    open spec fn view(&self) -> Turn {
        match *self {
            ConnAction::Close => Turn::Close,
            ConnAction::ReadMore => Turn::ReadMore,
            ConnAction::EndTls => Turn::EndTls,
            ConnAction::Frames { first } => Turn::Frames(first@),
            ConnAction::Http => Turn::Http,
            ConnAction::Reply { bytes } => Turn::Reply(bytes@),
            ConnAction::Upgrade { response, first } => Turn::Upgrade(response@, first@),
            ConnAction::Splice { target, first } => Turn::Splice(target@, first@),
            ConnAction::Serve { fetch } => Turn::Serve(fetch.request@, fetch.doc@),
        }
    }
}

impl Site {
    /// What a connection gets that is not ours.
    pub open spec fn fobbed_off(&self, buf: Seq<u8>) -> Turn {
        match self.decoy {
            Decoy::Proxy(target) => Turn::Splice(target@, buf),
            Decoy::NotFound => if buf.len() > 0 && 0x41 <= buf[0] <= 0x5a {
                Turn::Reply(not_found())
            } else {
                Turn::Close
            },
        }
    }

    /// What the first bytes of a connection lead to. TLS inside TLS is not ours.
    pub open spec fn greeted(&self, buf: Seq<u8>, via_tls: bool) -> Turn {
        if buf.len() == 0 {
            Turn::Close
        } else {
            let class = class_of(buf[0]);
            if !via_tls && self.tls_required && class != Class::Tls {
                Turn::Close
            } else if !via_tls && class == Class::Tls && self.tls {
                Turn::EndTls
            } else {
                match class {
                    Class::Uot => Turn::Frames(buf),
                    Class::Legacy => Turn::Frames(buf),
                    Class::Tls => self.fobbed_off(buf),
                    Class::Http => Turn::Http,
                }
            }
        }
    }

    /// What a request leads to that is neither an upgrade nor a subscription.
    pub open spec fn elsewhere(&self, head: Option<Head>, buf: Seq<u8>) -> Turn {
        match (self.panel, path_of(head)) {
            (Some(p), Some(path)) => if p.covers(path) {
                Turn::Splice(p.upstream@, buf)
            } else {
                self.fobbed_off(buf)
            },
            _ => self.fobbed_off(buf),
        }
    }

    /// Whether a request is for a subscription, and may be answered: the token is a
    /// credential.
    pub open spec fn for_subscription(&self, head: Option<Head>, peer: SocketAddr, via_tls: bool) -> bool {
        self.subscription matches Some(s) && (via_tls || trusted(peer)) && (path_of(head) matches Some(p) && under(
            p,
            s.settings.prefix@,
        ))
    }

    /// What a request with a whole head of `n` bytes leads to.
    pub open spec fn headed(
        &self,
        buf: Seq<u8>,
        n: int,
        peer: SocketAddr,
        via_tls: bool,
        before: Windows,
        now: Instant,
        book: Book,
        after: Windows,
        turn: Turn,
    ) -> bool {
        let head = http_head(buf.subrange(0, n));
        match upgrade_of(head, opt_chars(self.ws_path), trusted(peer)) {
            Some((key, forwarded_for)) => {
                let done = Turn::Upgrade(
                    encode_utf8(upgrade_response(accept_key(key))),
                    buf.subrange(n, buf.len() as int),
                );
                match forwarded_for {
                    Some(ip) => {
                        let (w, ok) = before.counted(ip.canonical(), now);
                        after == w && turn == if ok {
                            done
                        } else {
                            Turn::Reply(too_many())
                        }
                    },
                    None => after == before && turn == done,
                }
            },
            None => after == before && if self.for_subscription(head, peer, via_tls) {
                match turn {
                    Turn::Serve(a, d) => self.subscription->Some_0.fetched(head, book, Some((a, d))),
                    _ => self.subscription->Some_0.fetched(head, book, None) && turn == self.elsewhere(head, buf),
                }
            } else {
                turn == self.elsewhere(head, buf)
            },
        }
    }

    /// What the bytes of a request lead to.
    pub open spec fn routed(
        &self,
        buf: Seq<u8>,
        peer: SocketAddr,
        via_tls: bool,
        before: Windows,
        now: Instant,
        book: Book,
        after: Windows,
        turn: Turn,
    ) -> bool {
        match head_end(buf) {
            None => after == before && turn == if buf.len() >= MAX_HEAD_BYTES {
                self.fobbed_off(buf)
            } else {
                Turn::ReadMore
            },
            Some(n) => self.headed(buf, n, peer, via_tls, before, now, book, after, turn),
        }
    }

    fn decoy(&self, buf: &[u8]) -> (r: ConnAction)
        ensures
            r@ == self.fobbed_off(buf@),
    {
        match &self.decoy {
            Decoy::Proxy(target) => ConnAction::Splice { target: owned(target), first: slice_to_vec(buf) },
            Decoy::NotFound => {
                if buf.len() > 0 && 0x41 <= buf[0] && buf[0] <= 0x5a {
                    ConnAction::Reply {
                        bytes: utf8_of(
                            "HTTP/1.1 404 Not Found\r\nContent-Type: text/html\r\nContent-Length: 48\r\nConnection: close\r\n\r\n<html><body><h1>404 Not Found</h1></body></html>",
                        ),
                    }
                } else {
                    ConnAction::Close
                }
            },
        }
    }

    /// What the first bytes of a connection lead to.
    pub fn greet(&self, buf: &[u8], via_tls: bool) -> (r: ConnAction)
        ensures
            r@ == self.greeted(buf@, via_tls),
    {
        if buf.len() == 0 {
            return ConnAction::Close;
        }
        let class = classify(buf[0]);
        if !via_tls {
            if self.tls_required && class != Class::Tls {
                return ConnAction::Close;
            }
            if self.tls && class == Class::Tls {
                return ConnAction::EndTls;
            }
        }
        match class {
            Class::Uot | Class::Legacy => ConnAction::Frames { first: slice_to_vec(buf) },
            Class::Tls => self.decoy(buf),
            Class::Http => ConnAction::Http,
        }
    }

    fn other(&self, head: &[u8], buf: &[u8]) -> (r: ConnAction)
        ensures
            r@ == self.elsewhere(http_head(head@), buf@),
    {
        if let Some(p) = &self.panel {
            if let Some(path) = request_path(head) {
                if p.matches(&path) {
                    return ConnAction::Splice { target: owned(&p.upstream), first: slice_to_vec(buf) };
                }
            }
        }
        self.decoy(buf)
    }

    /// What the bytes of a request lead to.
    pub fn route_http(
        &self,
        buf: &[u8],
        peer: SocketAddr,
        via_tls: bool,
        limiter: &mut ConnLimiter,
        now: Instant,
        users: &Users,
    ) -> (r: ConnAction)
        requires
            old(limiter).wf(),
            users.wf(),
        ensures
            final(limiter).wf(),
            self.routed(buf@, peer, via_tls, old(limiter)@, now, users@, final(limiter)@, r@),
    {
        let len: usize = buf.len();
        let n: usize = match find_head_end(buf) {
            Some(n) => n,
            None => {
                if len >= MAX_HEAD_BYTES {
                    return self.decoy(buf);
                }
                return ConnAction::ReadMore;
            },
        };
        let head = slice_subrange(buf, 0, n);
        let path = match &self.ws_path {
            Some(p) => Some(p.as_str()),
            None => None,
        };
        assert(opt_str(path) == opt_chars(self.ws_path));
        match parse_upgrade(head, path, peer) {
            Some(u) => {
                if let Some(ip) = u.forwarded_for {
                    if !limiter.check_at(ip.to_canonical(), now) {
                        return ConnAction::Reply {
                            bytes: utf8_of(
                                "HTTP/1.1 429 Too Many Requests\r\nContent-Length: 0\r\nConnection: close\r\n\r\n",
                            ),
                        };
                    }
                }
                ConnAction::Upgrade {
                    response: build_upgrade_response(&ws_accept_key(&u.ws_key)),
                    first: slice_to_vec(slice_subrange(buf, n, len)),
                }
            },
            None => {
                if let Some(s) = &self.subscription {
                    if via_tls || is_trusted_proxy(peer) {
                        if let Some(p) = request_path(head) {
                            if s.wants(&p) {
                                if let Some(fetch) = s.fetch(head, users) {
                                    return ConnAction::Serve { fetch };
                                }
                            }
                        }
                    }
                }
                self.other(head, buf)
            },
        }
    }
}

// ── Frames over a stream ─────────────────────────────────────────────────────

/// A packet as a frame of a stream: its length in two bytes, then the packet.
pub open spec fn stream_frame(packet: Seq<u8>) -> Seq<u8> {
    be16(packet.len() as int % 65536) + packet
}

/// Whether a connection is looked at: its address has not opened too many, and not too
/// many wait to be told apart. A local web server is limited by the addresses that it
/// reports.
pub fn accept_connection(limiter: &mut ConnLimiter, peer: SocketAddr, pending: usize, now: Instant) -> (r: bool)
    requires
        old(limiter).wf(),
    ensures
        final(limiter).wf(),
        if trusted(peer) {
            final(limiter)@ == old(limiter)@ && r == (pending < MAX_PENDING)
        } else {
            let (after, allowed) = old(limiter)@.counted(peer.ip.canonical(), now);
            final(limiter)@ == after && r == (allowed && pending < MAX_PENDING)
        },
{
    if !is_trusted_proxy(peer) && !limiter.check_at(peer.ip.to_canonical(), now) {
        return false;
    }
    pending < MAX_PENDING
}

/// A packet as a frame of a stream.
pub fn frame_packet(packet: &[u8]) -> (r: Vec<u8>)
    ensures
        r@ == stream_frame(packet@),
{
    let mut out: Vec<u8> = Vec::new();
    put_u16(&mut out, (packet.len() % 65536) as u16);
    put_slice(&mut out, packet);
    assert(out@ =~= stream_frame(packet@));
    out
}

/// The packets at the front of the bytes of a stream, and what is left after
/// them.
pub open spec fn packets_in(s: Seq<u8>) -> (Seq<Seq<u8>>, Seq<u8>)
    decreases s.len(),
{
    if s.len() < 2 {
        (Seq::empty(), s)
    } else {
        let n = u16_at(s, 0);
        if n < 0 || s.len() < 2 + n {
            (Seq::empty(), s)
        } else {
            let (rest, left) = packets_in(s.subrange(2 + n, s.len() as int));
            (seq![s.subrange(2, 2 + n)] + rest, left)
        }
    }
}

pub open spec fn packet_views(v: Seq<Vec<u8>>) -> Seq<Seq<u8>> {
    Seq::new(v.len(), |i: int| v[i]@)
}

/// The packets at the front of the bytes of a stream, and how many bytes they
/// take.
pub fn split_packets(s: &[u8]) -> (r: (Vec<Vec<u8>>, usize))
    ensures
        r.1 <= s@.len(),
        packets_in(s@) == (packet_views(r.0@), s@.subrange(r.1 as int, s@.len() as int)),
{
    let len: usize = s.len();
    let mut out: Vec<Vec<u8>> = Vec::new();
    let mut i: usize = 0;
    assert(s@.subrange(0, len as int) =~= s@);
    assert(packet_views(out@) + packets_in(s@).0 =~= packets_in(s@).0);
    loop
        invariant
            len == s@.len(),
            i <= len,
            packets_in(s@).0 == packet_views(out@) + packets_in(s@.subrange(i as int, len as int)).0,
            packets_in(s@).1 == packets_in(s@.subrange(i as int, len as int)).1,
        decreases len - i,
    {
        let ghost rest = s@.subrange(i as int, len as int);
        if len - i < 2 {
            assert(packet_views(out@) + packets_in(rest).0 =~= packet_views(out@));
            return (out, i);
        }
        let n: usize = get_u16(s, i) as usize;
        assert(n == u16_at(rest, 0));
        if len - i - 2 < n {
            assert(packet_views(out@) + packets_in(rest).0 =~= packet_views(out@));
            return (out, i);
        }
        let ghost before = out@;
        out.push(copy_range(s, i + 2, i + 2 + n));
        assert(rest.subrange(2, 2 + n) =~= s@.subrange(i + 2, i + 2 + n));
        assert(rest.subrange(2 + n, rest.len() as int) =~= s@.subrange(i + 2 + n, len as int));
        assert(packet_views(out@) =~= packet_views(before).push(rest.subrange(2, 2 + n)));
        let ghost more = packets_in(s@.subrange(i + 2 + n, len as int)).0;
        assert(packet_views(before) + (seq![rest.subrange(2, 2 + n)] + more) =~= packet_views(out@) + more);
        i = i + 2 + n;
    }
}

/// The frames of packets, one after the other.
pub open spec fn stream_of(packets: Seq<Seq<u8>>) -> Seq<u8>
    decreases packets.len(),
{
    if packets.len() == 0 {
        Seq::empty()
    } else {
        stream_frame(packets[0]) + stream_of(packets.drop_first())
    }
}

/// Packets that are sent over a stream come out of it again, and nothing is left
/// over.
pub proof fn streams_round_trip(packets: Seq<Seq<u8>>)
    requires
        forall|i: int| 0 <= i < packets.len() ==> (#[trigger] packets[i]).len() < 65536,
    ensures
        packets_in(stream_of(packets)) == (packets, Seq::<u8>::empty()),
    decreases packets.len(),
{
    let s = stream_of(packets);
    if packets.len() == 0 {
        assert(packets_in(s).0 =~= packets);
    } else {
        let p = packets[0];
        let rest = packets.drop_first();
        assert forall|i: int| 0 <= i < rest.len() implies (#[trigger] rest[i]).len() < 65536 by {
            assert(packets[i + 1].len() < 65536);
        }
        streams_round_trip(rest);
        assert(p.len() % 65536 == p.len());
        assert(u16_at(s, 0) == p.len());
        assert(s.subrange(2, 2 + p.len() as int) =~= p);
        assert(s.subrange(2 + p.len() as int, s.len() as int) =~= stream_of(rest));
        assert(seq![p] + rest =~= packets);
    }
}

// ── Laws ─────────────────────────────────────────────────────────────────────

/// Only the secret path leads to an upgrade, and only with `GET` and a key: any
/// other request is answered as if there were no secret path.
pub proof fn other_paths_are_not_upgraded(h: Head, ws_path: Seq<char>, from_proxy: bool)
    requires
        h.1 != Some(ws_path),
        ws_path.len() > 0,
    ensures
        upgrade_in(h, ws_path, from_proxy) is None,
{
}

/// What a client says of its own address is not believed, unless it comes from a
/// local web server.
pub proof fn strangers_do_not_name_their_address(h: Head, ws_path: Seq<char>)
    ensures
        upgrade_in(h, ws_path, false) matches Some((_, ip)) ==> ip is None,
{
}

/// The request that a client builds is accepted as an upgrade: the head that it is
/// read as has the parts that were put into it.
pub proof fn built_requests_are_accepted(h: Head, path: Seq<char>, host: Seq<char>, key: Seq<char>)
    requires
        trim(key).len() > 0,
        h == (
            Some("GET"@),
            Some(path),
            seq![
                ("Host"@, encode_utf8(host)),
                ("Upgrade"@, encode_utf8("websocket"@)),
                ("Connection"@, encode_utf8("Upgrade"@)),
                ("Sec-WebSocket-Key"@, encode_utf8(key)),
                ("Sec-WebSocket-Version"@, encode_utf8("13"@)),
            ],
        ),
    ensures
        upgrade_in(h, path, false) == Some((trim(key), None::<IpAddr>)),
{
    reveal_strlit("Host");
    reveal_strlit("Upgrade");
    reveal_strlit("upgrade");
    reveal_strlit("Connection");
    reveal_strlit("connection");
    reveal_strlit("Sec-WebSocket-Key");
    reveal_strlit("sec-websocket-key");
    reveal_strlit("Sec-WebSocket-Version");
    reveal_strlit("websocket");
    let a = h.2;
    let b = a.drop_first();
    let c = b.drop_first();
    let d = c.drop_first();
    assert(crate::text::lower("Upgrade"@) =~= "upgrade"@ && crate::text::lower("upgrade"@) =~= "upgrade"@);
    assert(crate::text::lower("Connection"@) =~= "connection"@ && crate::text::lower("connection"@) =~= "connection"@);
    assert(crate::text::lower("Sec-WebSocket-Key"@) =~= "sec-websocket-key"@);
    assert(crate::text::lower("sec-websocket-key"@) =~= "sec-websocket-key"@);
    assert(crate::text::lower("Host"@).len() == 4);
    use_headers(h, host, key);
    crate::text::lemma_text_of_encoded("websocket"@);
    crate::text::lemma_text_of_encoded("Upgrade"@);
    crate::text::lemma_text_of_encoded(key);
    let u = "Upgrade"@;
    assert(trim("websocket"@) == "websocket"@);
    assert(trim(u) == u);
    crate::text::lemma_find_char_none(u, ',');
    assert(split(u, ',') =~= seq![u]);
    assert(eq_nocase(trim(split(u, ',')[0]), "upgrade"@));
    assert(lists(u, "upgrade"@));
}

proof fn use_headers(h: Head, host: Seq<char>, key: Seq<char>)
    requires
        h.2 == seq![
            ("Host"@, encode_utf8(host)),
            ("Upgrade"@, encode_utf8("websocket"@)),
            ("Connection"@, encode_utf8("Upgrade"@)),
            ("Sec-WebSocket-Key"@, encode_utf8(key)),
            ("Sec-WebSocket-Version"@, encode_utf8("13"@)),
        ],
    ensures
        crate::http::first_header(h.2, "upgrade"@) == Some(encode_utf8("websocket"@)),
        crate::http::first_header(h.2, "connection"@) == Some(encode_utf8("Upgrade"@)),
        crate::http::first_header(h.2, "sec-websocket-key"@) == Some(encode_utf8(key)),
{
    reveal_strlit("Host");
    reveal_strlit("Upgrade");
    reveal_strlit("upgrade");
    reveal_strlit("Connection");
    reveal_strlit("connection");
    reveal_strlit("Sec-WebSocket-Key");
    reveal_strlit("sec-websocket-key");
    assert(crate::text::lower("Upgrade"@) =~= crate::text::lower("upgrade"@));
    assert(crate::text::lower("Connection"@) =~= crate::text::lower("connection"@));
    assert(crate::text::lower("Sec-WebSocket-Key"@) =~= crate::text::lower("sec-websocket-key"@));
    assert(crate::text::lower("Host"@).len() == 4);
    assert(crate::text::lower("Upgrade"@).len() == 7);
    assert(crate::text::lower("Connection"@).len() == 10);
    assert(crate::text::lower("sec-websocket-key"@).len() == 17);
    assert(crate::text::lower("upgrade"@).len() == 7);
    assert(crate::text::lower("connection"@).len() == 10);
    let a = h.2;
    let b = a.drop_first();
    let c = b.drop_first();
    let d = c.drop_first();
    assert(b[0] == a[1] && c[0] == a[2] && d[0] == a[3]);
    reveal_with_fuel(crate::http::first_header, 5);
}

/// Subscriptions are served inside TLS, or to a local web server, and to nobody
/// else.
pub proof fn tokens_stay_inside_tls(
    s: Site,
    buf: Seq<u8>,
    peer: SocketAddr,
    before: Windows,
    now: Instant,
    book: Book,
    after: Windows,
    turn: Turn,
)
    requires
        s.routed(buf, peer, false, before, now, book, after, turn),
        !trusted(peer),
    ensures
        !(turn is Serve),
{
}

/// On a port that requires TLS nothing else gets an answer.
pub proof fn tls_ports_answer_tls_only(s: Site, buf: Seq<u8>)
    requires
        s.tls_required,
        s.tls,
        buf.len() > 0,
    ensures
        s.greeted(buf, false) is Close || s.greeted(buf, false) is EndTls,
{
}

/// Protocols that share a port are told apart by their first byte: frames begin with a byte up
/// to 5, TLS with 22, a request for HTTP with a capital letter; anything else is taken to be
/// frames of an older form. What carries frames gets all bytes that were read.
pub proof fn protocols_are_told_apart(s: Site, buf: Seq<u8>, via_tls: bool)
    requires
        buf.len() > 0,
        !s.tls_required || via_tls,
    ensures
        buf[0] <= 5 ==> s.greeted(buf, via_tls) == Turn::Frames(buf),
        buf[0] == 22 && s.tls && !via_tls ==> s.greeted(buf, via_tls) == Turn::EndTls,
        buf[0] == 22 && (!s.tls || via_tls) ==> s.greeted(buf, via_tls) == s.fobbed_off(buf),
        65 <= buf[0] <= 90 ==> s.greeted(buf, via_tls) == Turn::Http,
        5 < buf[0] < 65 && buf[0] != 22 ==> s.greeted(buf, via_tls) == Turn::Frames(buf),
        buf[0] > 90 ==> s.greeted(buf, via_tls) == Turn::Frames(buf),
        s.greeted(Seq::empty(), via_tls) == Turn::Close,
{
}

/// Who has no business here gets what a web server would give: the real one, where there is
/// one, with all bytes that were read, or else that there is nothing.
pub proof fn strangers_meet_a_web_server(s: Site, buf: Seq<u8>, target: String)
    requires
        buf.len() > 0,
    ensures
        s.decoy == Decoy::Proxy(target) ==> s.fobbed_off(buf) == Turn::Splice(target@, buf),
        s.decoy is NotFound && 65 <= buf[0] <= 90 ==> s.fobbed_off(buf) == Turn::Reply(not_found()),
        s.decoy is NotFound && !(65 <= buf[0] <= 90) ==> s.fobbed_off(buf) == Turn::Close,
{
}

/// A request is read until its head is whole; one whose head gets too long is fobbed off.
pub proof fn heads_are_awaited(
    s: Site,
    buf: Seq<u8>,
    peer: SocketAddr,
    via_tls: bool,
    before: Windows,
    now: Instant,
    book: Book,
    after: Windows,
    turn: Turn,
)
    requires
        s.routed(buf, peer, via_tls, before, now, book, after, turn),
        head_end(buf) is None,
    ensures
        buf.len() < 8192 ==> turn == Turn::ReadMore,
        buf.len() >= 8192 ==> turn == s.fobbed_off(buf),
        after == before,
{
}

/// A request for the upgrade at the secret path is answered, and the connection then carries
/// frames, of which what was read behind the head is the first. One that a local web server
/// passes on counts for the client that it names, who may be over the limit.
pub proof fn upgrades_are_answered(
    s: Site,
    buf: Seq<u8>,
    n: int,
    peer: SocketAddr,
    via_tls: bool,
    before: Windows,
    now: Instant,
    book: Book,
    after: Windows,
    turn: Turn,
    key: Seq<char>,
    ip: Option<IpAddr>,
)
    requires
        s.routed(buf, peer, via_tls, before, now, book, after, turn),
        head_end(buf) == Some(n),
        upgrade_of(http_head(buf.subrange(0, n)), opt_chars(s.ws_path), trusted(peer)) == Some((key, ip)),
    ensures
        ip is None ==> turn == Turn::Upgrade(
            encode_utf8(upgrade_response(accept_key(key))),
            buf.subrange(n, buf.len() as int),
        ) && after == before,
        ip matches Some(a) && before.counted(a.canonical(), now).1 ==> turn == Turn::Upgrade(
            encode_utf8(upgrade_response(accept_key(key))),
            buf.subrange(n, buf.len() as int),
        ),
        ip matches Some(a) && !before.counted(a.canonical(), now).1 ==> turn == Turn::Reply(too_many()),
{
}

/// A request for the panel is passed to it with all bytes that were read; one for anything else
/// that is neither an upgrade nor a subscription is fobbed off.
pub proof fn panel_requests_reach_the_panel(
    s: Site,
    buf: Seq<u8>,
    n: int,
    peer: SocketAddr,
    via_tls: bool,
    before: Windows,
    now: Instant,
    book: Book,
    after: Windows,
    turn: Turn,
    path: Seq<char>,
)
    requires
        s.routed(buf, peer, via_tls, before, now, book, after, turn),
        head_end(buf) == Some(n),
        upgrade_of(http_head(buf.subrange(0, n)), opt_chars(s.ws_path), trusted(peer)) is None,
        path_of(http_head(buf.subrange(0, n))) == Some(path),
        s.subscription is None,
    ensures
        s.panel matches Some(p) && (path == p.prefix@ || under(path, p.prefix@)) ==> turn == Turn::Splice(
            s.panel->Some_0.upstream@,
            buf,
        ),
        (s.panel matches Some(p) ==> path != p.prefix@ && !under(path, p.prefix@)) ==> turn == s.fobbed_off(buf),
        after == before,
{
}

/// A packet stands in a stream behind its length in two bytes.
pub proof fn packets_stand_behind_their_length(packet: Seq<u8>)
    requires
        packet.len() < 65536,
    ensures
        stream_frame(packet).len() == packet.len() + 2,
        u16_at(stream_frame(packet), 0) == packet.len(),
        stream_frame(packet).subrange(2, packet.len() as int + 2) == packet,
{
    let b = stream_frame(packet);
    assert(b.subrange(0, 2) =~= be16(packet.len() as int));
    crate::bytes::lemma_be16(b, 0, packet.len() as int);
    assert(b.subrange(2, packet.len() as int + 2) =~= packet);
}

/// Bytes of a packet that is not whole yet stay until the rest comes.
pub proof fn unfinished_packets_wait(packets: Seq<Seq<u8>>, rest: Seq<u8>)
    requires
        forall|i: int| 0 <= i < packets.len() ==> (#[trigger] packets[i]).len() < 65536,
        rest.len() < 2 || rest.len() < 2 + u16_at(rest, 0),
    ensures
        packets_in(stream_of(packets) + rest) == (packets, rest),
    decreases packets.len(),
{
    if packets.len() == 0 {
        assert(stream_of(packets) + rest =~= rest);
        assert(packets =~= Seq::<Seq<u8>>::empty());
    } else {
        let p = packets[0];
        let more = packets.drop_first();
        assert forall|i: int| 0 <= i < more.len() implies (#[trigger] more[i]).len() < 65536 by {
            assert(more[i] == packets[i + 1]);
        }
        unfinished_packets_wait(more, rest);
        let s = stream_of(packets) + rest;
        assert(s.subrange(0, 2) =~= be16(p.len() as int));
        crate::bytes::lemma_be16(s, 0, p.len() as int);
        assert(s.subrange(2, 2 + p.len() as int) =~= p);
        assert(s.subrange(2 + p.len() as int, s.len() as int) =~= stream_of(more) + rest);
        assert(seq![p] + more =~= packets);
    }
}

/// The client that a local web server passes on is the one that it names for this, or else the
/// last one of the list that it was passed along.
pub proof fn passed_on_clients_are_named(h: Head, v: Seq<char>, ip: IpAddr)
    ensures
        trimmed_header(h, "x-real-ip"@) == Some(v) && read_ip(v) == Some(ip) ==> forwarded(h) == Some(ip),
        trimmed_header(h, "x-real-ip"@) is None && trimmed_header(h, "x-forwarded-for"@) == Some(v) && read_ip(
            trim(after_last_comma(v)),
        ) == Some(ip) ==> forwarded(h) == Some(ip),
        trimmed_header(h, "x-real-ip"@) is None && trimmed_header(h, "x-forwarded-for"@) is None ==> forwarded(h) is None,
{
}

/// An upgrade asks with GET at the path, names the protocol and the connection's change, and
/// brings a key; any request that lacks one of these is not upgraded.
pub proof fn upgrades_ask_for_everything(h: Head, ws_path: Seq<char>, from_proxy: bool)
    ensures
        h.0 != Some("GET"@) ==> upgrade_in(h, ws_path, from_proxy) is None,
        trimmed_header(h, "upgrade"@) is None ==> upgrade_in(h, ws_path, from_proxy) is None,
        trimmed_header(h, "connection"@) is None ==> upgrade_in(h, ws_path, from_proxy) is None,
        trimmed_header(h, "sec-websocket-key"@) is None ==> upgrade_in(h, ws_path, from_proxy) is None,
        upgrade_in(h, ws_path, true) matches Some((_, ip)) ==> ip == forwarded(h),
{
}

/// Only who connects from this machine itself is trusted.
pub proof fn this_machine_is_trusted(v: u32, w: u128, port: u16, scope_id: u32)
    ensures
        trusted(SocketAddr { ip: IpAddr::V4(v), port, scope_id }) <==> 0x7f00_0000 <= v <= 0x7fff_ffff,
        w / 0x1_0000_0000 != 0xffff ==> (trusted(SocketAddr { ip: IpAddr::V6(w), port, scope_id }) <==> w == 1),
{
    crate::net::mapped_addresses_are_taken_for_their_own(v, w, port, scope_id);
}

} // verus!
