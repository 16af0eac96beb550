//! Where connections of clients leave the server: through a proxy, directly or
//! not at all.

use vstd::prelude::*;

use crate::net::{ip_of, parse_ip, read_ip, IpAddr, SocketAddr};
use crate::text::{
    ascii_only, chars_of, cut, decimal, ends, ends_with, eq_nocase, has_char, holds_char, lemma_trims_are_ascii, lower,
    lower_str, lowercase, number, owned, parse_number, put_decimal, rcut, rsplit_once, same_chars, same_nocase, same_str,
    split_once, string_of, string_views, trim, trim_end_char, trim_start, trim_start_char, trimmed, unicode_lower,
    without_leading, without_trailing,
};

verus! {

#[derive(Debug, Clone, Copy, PartialEq, Eq, Structural)]
pub enum OutboundAction {
    Proxy,
    Direct,
    Block,
}

#[derive(Debug, Clone)]
pub struct OutboundRule {
    pub domain_suffix: Vec<String>,
    pub ip_cidr: Vec<String>,
    pub protocol: Option<String>,
    pub action: OutboundAction,
    /// Source address of connections to which the rule applies; the one of the
    /// server where there is none.
    pub send_from: Option<String>,
}

#[derive(Debug, Clone)]
pub struct OutboundConfig {
    pub enabled: bool,
    pub protocol: String,
    pub address: String,
    pub port: u16,
    /// Credentials of the proxy; an empty name means none.
    pub username: String,
    pub password: String,
    pub rules: Vec<OutboundRule>,
    pub default_action: OutboundAction,
}

// ── Targets ──────────────────────────────────────────────────────────────────

/// Host and port of a target. An IPv6 address stands in brackets.
pub open spec fn host_port(target: Seq<char>) -> Option<(Seq<char>, int)> {
    match rsplit_once(target, ':') {
        None => None,
        Some((host, port)) => match parse_number(port, 0xffff) {
            None => None,
            Some(p) => if host.len() > 0 && host[0] == '[' && host.last() == ']' {
                Some((trim_end_char(trim_start_char(host, '['), ']'), p))
            } else if has_char(host, ':') {
                None
            } else {
                Some((host, p))
            },
        },
    }
}

/// Host and port of a target.
pub fn split_host_port(target: &str) -> (r: Option<(String, u16)>)
    ensures
        match r {
            Some((h, p)) => host_port(target@) == Some((h@, p as int)),
            None => host_port(target@) is None,
        },
{
    let t = chars_of(target);
    match rcut(&t, ':') {
        None => None,
        Some((host, port)) => match number(port, 0xffff) {
            None => None,
            Some(p) => {
                let n: usize = host.len();
                if n > 0 && host[0] == '[' && host[n - 1] == ']' {
                    let inner = without_trailing(without_leading(host, '['), ']');
                    Some((string_of(inner), p as u16))
                } else if holds_char(host, ':') {
                    None
                } else {
                    Some((string_of(host), p as u16))
                }
            },
        },
    }
}

// ── Networks ─────────────────────────────────────────────────────────────────

/// A network: an address and how many of its leading bits count.
#[derive(Clone, Copy, Debug, PartialEq, Eq, Structural)]
pub enum Cidr {
    V4(u32, u8),
    V6(u128, u8),
}

/// A number without its last `k` binary digits.
pub open spec fn without_bits(n: int, k: int) -> int
    decreases k,
{
    if k <= 0 {
        n
    } else {
        without_bits(n / 2, k - 1)
    }
}

fn drop_bits(n: u128, k: u8) -> (r: u128)
    ensures
        r == without_bits(n as int, k as int),
{
    let mut v: u128 = n;
    let mut left: u8 = k;
    while left > 0
        invariant
            without_bits(v as int, left as int) == without_bits(n as int, k as int),
        decreases left,
    {
        v = v / 2;
        left -= 1;
    }
    v
}

impl Cidr {
    /// No more leading bits than an address has.
    pub open spec fn wf(self) -> bool {
        match self {
            Cidr::V4(_, bits) => bits <= 32,
            Cidr::V6(_, bits) => bits <= 128,
        }
    }

    /// An address of the same family with the same leading bits.
    pub open spec fn has(self, ip: IpAddr) -> bool {
        match (self, ip) {
            (Cidr::V4(net, bits), IpAddr::V4(a)) => without_bits(a as int, 32 - bits) == without_bits(
                net as int,
                32 - bits,
            ),
            (Cidr::V6(net, bits), IpAddr::V6(a)) => without_bits(a as int, 128 - bits) == without_bits(
                net as int,
                128 - bits,
            ),
            _ => false,
        }
    }

    /// Whether an address is in the network.
    pub fn contains(&self, ip: &IpAddr) -> (r: bool)
        requires
            self.wf(),
        ensures
            r == self.has(*ip),
    {
        match (*self, *ip) {
            (Cidr::V4(net, bits), IpAddr::V4(a)) => drop_bits(a as u128, 32 - bits) == drop_bits(
                net as u128,
                32 - bits,
            ),
            (Cidr::V6(net, bits), IpAddr::V6(a)) => drop_bits(a, 128 - bits) == drop_bits(net, 128 - bits),
            _ => false,
        }
    }
}

pub open spec fn network(ip: IpAddr, bits: int) -> Cidr {
    match ip {
        IpAddr::V4(v) => Cidr::V4(
            v,
            if bits > 32 {
                32
            } else {
                bits as u8
            },
        ),
        IpAddr::V6(v) => Cidr::V6(
            v,
            if bits > 128 {
                128
            } else {
                bits as u8
            },
        ),
    }
}

/// The network that a text stands for: an address, or an address and a number of
/// bits.
pub open spec fn read_cidr(text: Seq<char>) -> Option<Cidr> {
    let v = trim(text);
    match split_once(v, '/') {
        Some((addr, bits)) => match (parse_number(bits, 255), read_ip(addr)) {
            (Some(b), Some(ip)) => Some(network(ip, b)),
            (None, _) => None,
            (_, None) => match read_ip(v) {
                Some(ip) => Some(network(ip, 128)),
                None => None,
            },
        },
        None => match read_ip(v) {
            Some(ip) => Some(network(ip, 128)),
            None => None,
        },
    }
}

fn network_of(ip: IpAddr, bits: u8) -> (r: Cidr)
    ensures
        r == network(ip, bits as int),
        r.wf(),
{
    match ip {
        IpAddr::V4(v) => Cidr::V4(
            v,
            if bits > 32 {
                32
            } else {
                bits
            },
        ),
        IpAddr::V6(v) => Cidr::V6(
            v,
            if bits > 128 {
                128
            } else {
                bits
            },
        ),
    }
}

/// The network that a text stands for.
pub fn parse_cidr(value: &str) -> (r: Option<Cidr>)
    ensures
        r == read_cidr(value@),
        r matches Some(c) ==> c.wf(),
{
    let t = chars_of(value);
    let v = trimmed(&t);
    if let Some((addr, bits)) = cut(v, '/') {
        match number(bits, 255) {
            Some(b) => {
                if let Some(ip) = parse_ip(addr) {
                    return Some(network_of(ip, b as u8));
                }
            },
            None => {
                return None;
            },
        }
    }
    match parse_ip(v) {
        Some(ip) => Some(network_of(ip, 128)),
        None => None,
    }
}

// ── Rules ────────────────────────────────────────────────────────────────────

/// Whether a host is `suffix` or a name below it; both in lower case.
pub open spec fn below(host: Seq<char>, suffix: Seq<char>) -> bool {
    suffix.len() > 0 && (host == suffix || ends_with(host, seq!['.'] + suffix))
}

/// Whether a host is `suffix` or a name below it; both in lower case.
pub fn is_below(host: &str, suffix: &str) -> (r: bool)
    ensures
        r == below(host@, suffix@),
{
    let h = chars_of(host);
    let s = chars_of(suffix);
    if s.len() == 0 {
        return false;
    }
    let mut dotted: Vec<char> = Vec::new();
    dotted.push('.');
    crate::text::put_chars(&mut dotted, &s);
    assert(dotted@ =~= seq!['.'] + suffix@);
    same_chars(&h, &s) || ends(&h, &dotted)
}

/// A host as rules see it.
pub open spec fn rule_host(host: Seq<char>) -> Seq<char> {
    unicode_lower(trim_end_char(host, '.'))
}

/// A suffix as rules see it.
pub open spec fn rule_suffix(suffix: Seq<char>) -> Seq<char> {
    unicode_lower(trim_start_char(trim(suffix), '.'))
}

/// Whether one of the suffixes covers a host.
pub open spec fn domain_hit(host: Seq<char>, suffixes: Seq<Seq<char>>) -> bool {
    exists|i: int| 0 <= i < suffixes.len() && below(rule_host(host), rule_suffix(#[trigger] suffixes[i]))
}

/// Whether one of the suffixes covers a host, where both are ASCII: the case of letters does
/// not count, nor do dots at the end of the host or before a suffix.
pub open spec fn ascii_domain_hit(host: Seq<char>, suffixes: Seq<Seq<char>>) -> bool {
    exists|i: int|
        0 <= i < suffixes.len() && below(
            lower(trim_end_char(host, '.')),
            lower(trim_start_char(trim(#[trigger] suffixes[i]), '.')),
        )
}

/// Whether one of the suffixes covers a host.
pub fn match_domain_rule(host: &str, suffixes: &[String]) -> (r: bool)
    ensures
        r == domain_hit(host@, string_views(suffixes@)),
        ascii_only(host@) && (forall|i: int| 0 <= i < suffixes@.len() ==> ascii_only((#[trigger] suffixes@[i])@)) ==> r
            == ascii_domain_hit(host@, string_views(suffixes@)),
{
    if suffixes.len() == 0 {
        return false;
    }
    let h = chars_of(host);
    let name = lowercase(&string_of(without_trailing(&h, '.')));
    let mut i: usize = 0;
    let ghost all = string_views(suffixes@);
    let ghost plain = ascii_only(host@) && forall|i: int|
        0 <= i < suffixes@.len() ==> ascii_only((#[trigger] suffixes@[i])@);
    proof {
        if plain {
            lemma_trims_are_ascii(host@, '.');
        }
    }
    while i < suffixes.len()
        invariant
            all == string_views(suffixes@),
            i <= suffixes@.len(),
            plain == (ascii_only(host@) && forall|i: int|
                0 <= i < suffixes@.len() ==> ascii_only((#[trigger] suffixes@[i])@)),
            name@ == rule_host(host@),
            plain ==> name@ == lower(trim_end_char(host@, '.')),
            forall|j: int| 0 <= j < i ==> !below(name@, rule_suffix(#[trigger] all[j])),
            plain ==> forall|j: int| 0 <= j < i ==> !below(name@, lower(trim_start_char(trim(#[trigger] all[j]), '.'))),
        decreases suffixes@.len() - i,
    {
        let s = chars_of(&suffixes[i]);
        proof {
            if plain {
                lemma_trims_are_ascii(suffixes@[i as int]@, '.');
                lemma_trims_are_ascii(trim_start(s@), '.');
                lemma_trims_are_ascii(trim(s@), '.');
            }
        }
        let suffix = lowercase(&string_of(without_leading(trimmed(&s), '.')));
        assert(suffix@ == rule_suffix(all[i as int]));
        assert(plain ==> suffix@ == lower(trim_start_char(trim(all[i as int]), '.')));
        if is_below(&name, &suffix) {
            return true;
        }
        i += 1;
    }
    false
}

/// Whether one of the networks has a host that is an address. Texts that are no
/// network are passed over.
pub open spec fn ip_hit(host: Seq<char>, cidrs: Seq<Seq<char>>) -> bool {
    read_ip(host) matches Some(ip) && exists|i: int|
        0 <= i < cidrs.len() && (read_cidr(#[trigger] cidrs[i]) matches Some(c) && c.has(ip))
}

/// Whether one of the networks has a host that is an address.
pub fn match_ip_rule(host: &str, cidrs: &[String]) -> (r: bool)
    ensures
        r == ip_hit(host@, string_views(cidrs@)),
{
    let ip = match ip_of(host) {
        Some(ip) => ip,
        None => {
            return false;
        },
    };
    let ghost all = string_views(cidrs@);
    let mut i: usize = 0;
    while i < cidrs.len()
        invariant
            all == string_views(cidrs@),
            i <= cidrs@.len(),
            read_ip(host@) == Some(ip),
            forall|j: int| 0 <= j < i ==> !(read_cidr(#[trigger] all[j]) matches Some(c) && c.has(ip)),
        decreases cidrs@.len() - i,
    {
        assert(all[i as int] == cidrs@[i as int]@);
        if let Some(c) = parse_cidr(&cidrs[i]) {
            if c.contains(&ip) {
                return true;
            }
        }
        i += 1;
    }
    false
}

/// Whether a rule is for a protocol.
pub open spec fn for_protocol(rule: OutboundRule, protocol: Seq<char>) -> bool {
    rule.protocol matches Some(p) ==> p@.len() == 0 || unicode_lower(p@) == protocol
}

/// Whether a rule covers a connection. One without conditions covers all.
pub open spec fn covers(rule: OutboundRule, host: Seq<char>, protocol: Seq<char>) -> bool {
    for_protocol(rule, protocol) && (rule.domain_suffix@.len() == 0 && rule.ip_cidr@.len() == 0 || domain_hit(
        host,
        string_views(rule.domain_suffix@),
    ) || ip_hit(host, string_views(rule.ip_cidr@)))
}

/// The first rule that covers a connection.
pub open spec fn first_rule(rules: Seq<OutboundRule>, host: Seq<char>, protocol: Seq<char>) -> Option<OutboundRule>
    decreases rules.len(),
{
    if rules.len() == 0 {
        None
    } else if covers(rules[0], host, protocol) {
        Some(rules[0])
    } else {
        first_rule(rules.drop_first(), host, protocol)
    }
}

pub open spec fn opt_text(s: Option<String>) -> Option<Seq<char>> {
    match s {
        Some(t) => Some(t@),
        None => None,
    }
}

/// What the rules say of a target, and the source address they ask for. A target
/// without a port gets the default.
pub open spec fn decided(target: Seq<char>, protocol: Seq<char>, c: OutboundConfig) -> (
    OutboundAction,
    Option<Seq<char>>,
) {
    match host_port(target) {
        None => (c.default_action, None),
        Some((host, _)) => match first_rule(c.rules@, host, protocol) {
            Some(rule) => (rule.action, opt_text(rule.send_from)),
            None => (c.default_action, None),
        },
    }
}

fn covers_host(rule: &OutboundRule, host: &str, protocol: &str) -> (r: bool)
    ensures
        r == covers(*rule, host@, protocol@),
{
    if let Some(p) = &rule.protocol {
        if chars_of(p).len() != 0 && !same_str(&lowercase(p), protocol) {
            return false;
        }
    }
    (rule.domain_suffix.len() == 0 && rule.ip_cidr.len() == 0) || match_domain_rule(host, &rule.domain_suffix)
        || match_ip_rule(host, &rule.ip_cidr)
}

/// What the rules say of a target, and the source address they ask for.
pub fn select_outbound_action(target: &str, protocol: &str, outbound: &OutboundConfig) -> (r: (
    OutboundAction,
    Option<String>,
))
    ensures
        (r.0, opt_text(r.1)) == decided(target@, protocol@, *outbound),
{
    let host = match split_host_port(target) {
        Some((h, _)) => h,
        None => {
            return (outbound.default_action, None);
        },
    };
    let mut i: usize = 0;
    let ghost all = outbound.rules@;
    assert(all.subrange(0, all.len() as int) =~= all);
    while i < outbound.rules.len()
        invariant
            all == outbound.rules@,
            i <= all.len(),
            first_rule(all, host@, protocol@) == first_rule(
                all.subrange(i as int, all.len() as int),
                host@,
                protocol@,
            ),
            host_port(target@) matches Some((h, _)) && h == host@,
        decreases all.len() - i,
    {
        let ghost rest = all.subrange(i as int, all.len() as int);
        assert(rest.drop_first() =~= all.subrange(i + 1, all.len() as int));
        let rule = &outbound.rules[i];
        if covers_host(rule, &host, protocol) {
            let from = match &rule.send_from {
                Some(s) => Some(owned(s)),
                None => None,
            };
            return (rule.action, from);
        }
        i += 1;
    }
    (outbound.default_action, None)
}

// ── Decisions ────────────────────────────────────────────────────────────────

/// How a connection leaves the server. `bind` is its source address.
pub enum Route {
    /// The rules forbid it.
    Blocked,
    Socks5 { proxy: String, bind: Option<String> },
    Http { proxy: String, bind: Option<String> },
    /// The rules ask for the proxy, and its protocol is none that is known.
    Unsupported(String),
    Direct { bind: Option<String> },
}

/// How a connection leaves the server.
#[verifier::ext_equal]
pub enum Way {
    Blocked,
    Socks5(Seq<char>, Option<Seq<char>>),
    Http(Seq<char>, Option<Seq<char>>),
    Unsupported(Seq<char>),
    Direct(Option<Seq<char>>),
}

impl View for Route {
    type V = Way;

    open spec fn view(&self) -> Way {
        match self {
            Route::Blocked => Way::Blocked,
            Route::Socks5 { proxy, bind } => Way::Socks5(proxy@, opt_text(*bind)),
            Route::Http { proxy, bind } => Way::Http(proxy@, opt_text(*bind)),
            Route::Unsupported(p) => Way::Unsupported(p@),
            Route::Direct { bind } => Way::Direct(opt_text(*bind)),
        }
    }
}

/// The address of the proxy.
pub open spec fn proxy_text(c: OutboundConfig) -> Seq<char> {
    c.address@ + seq![':'] + decimal(c.port as nat)
}

fn proxy_address(c: &OutboundConfig) -> (r: String)
    ensures
        r@ == proxy_text(*c),
{
    let mut v = chars_of(&c.address);
    v.push(':');
    put_decimal(&mut v, c.port as u64);
    assert(v@ =~= proxy_text(*c));
    string_of(&v)
}

/// The source address that a rule asks for, that of the server otherwise.
pub open spec fn source(rule: Option<Seq<char>>, server: Option<Seq<char>>) -> Option<Seq<char>> {
    match rule {
        Some(s) => Some(s),
        None => server,
    }
}

/// How a TCP connection to a target leaves the server. What the rules send to
/// the proxy never leaves directly.
pub open spec fn tcp_way(target: Seq<char>, c: Option<OutboundConfig>, bind: Option<Seq<char>>) -> Way {
    match c {
        Some(c) if c.enabled => {
            let (action, from) = decided(target, "tcp"@, c);
            let src = source(from, bind);
            match action {
                OutboundAction::Block => Way::Blocked,
                OutboundAction::Proxy => if lower(c.protocol@) == "socks5"@ {
                    Way::Socks5(proxy_text(c), src)
                } else if lower(c.protocol@) == "http"@ {
                    Way::Http(proxy_text(c), src)
                } else {
                    Way::Unsupported(lower(c.protocol@))
                },
                OutboundAction::Direct => Way::Direct(src),
            }
        },
        _ => Way::Direct(bind),
    }
}

fn copy_opt(s: &Option<String>) -> (r: Option<String>)
    ensures
        opt_text(r) == opt_text(*s),
{
    match s {
        Some(t) => Some(owned(t)),
        None => None,
    }
}

/// How a TCP connection to a target leaves the server.
pub fn route_target(target: &str, outbound: &Option<OutboundConfig>, bind_ip: &Option<String>) -> (r: Route)
    ensures
        r@ == tcp_way(target@, *outbound, opt_text(*bind_ip)),
{
    match outbound {
        Some(c) => {
            if !c.enabled {
                return Route::Direct { bind: copy_opt(bind_ip) };
            }
            let (action, from) = select_outbound_action(target, "tcp", c);
            let bind = match from {
                Some(s) => Some(s),
                None => copy_opt(bind_ip),
            };
            match action {
                OutboundAction::Block => Route::Blocked,
                OutboundAction::Proxy => {
                    let p = lower_str(&c.protocol);
                    if same_str(&p, "socks5") {
                        Route::Socks5 { proxy: proxy_address(c), bind }
                    } else if same_str(&p, "http") {
                        Route::Http { proxy: proxy_address(c), bind }
                    } else {
                        Route::Unsupported(p)
                    }
                },
                OutboundAction::Direct => Route::Direct { bind },
            }
        },
        None => Route::Direct { bind: copy_opt(bind_ip) },
    }
}

/// How UDP to a target leaves the server.
pub open spec fn udp_way(target: Seq<char>, c: Option<OutboundConfig>, bind: Option<Seq<char>>) -> Way {
    match c {
        Some(c) if c.enabled => {
            let (action, from) = decided(target, "udp"@, c);
            match action {
                OutboundAction::Block => Way::Blocked,
                OutboundAction::Proxy => if eq_nocase(c.protocol@, "socks5"@) {
                    Way::Socks5(proxy_text(c), source(from, bind))
                } else {
                    Way::Unsupported(c.protocol@)
                },
                OutboundAction::Direct => Way::Direct(bind),
            }
        },
        _ => Way::Direct(bind),
    }
}

/// How UDP to a target leaves the server.
pub fn route_udp_target(target: &str, outbound: &Option<OutboundConfig>, bind_ip: &Option<String>) -> (r: Route)
    ensures
        r@ == udp_way(target@, *outbound, opt_text(*bind_ip)),
{
    match outbound {
        Some(c) => {
            if !c.enabled {
                return Route::Direct { bind: copy_opt(bind_ip) };
            }
            let (action, from) = select_outbound_action(target, "udp", c);
            match action {
                OutboundAction::Block => Route::Blocked,
                OutboundAction::Proxy => {
                    let a = chars_of(&c.protocol);
                    let b = chars_of("socks5");
                    if same_nocase(&a, &b) {
                        let bind = match from {
                            Some(s) => Some(s),
                            None => copy_opt(bind_ip),
                        };
                        Route::Socks5 { proxy: proxy_address(c), bind }
                    } else {
                        Route::Unsupported(owned(&c.protocol))
                    }
                },
                OutboundAction::Direct => Route::Direct { bind: copy_opt(bind_ip) },
            }
        },
        None => Route::Direct { bind: copy_opt(bind_ip) },
    }
}

/// How a datagram of a UDP association leaves the server.
#[derive(Clone, Copy, Debug, PartialEq, Eq, Structural)]
pub enum UdpRoute {
    Blocked,
    Proxy,
    /// The rules ask for the proxy, and there is none for UDP: the datagram is
    /// dropped.
    NoProxy,
    Direct,
}

/// How a datagram leaves the server, where a proxy for UDP is there or not.
pub open spec fn datagram_way(target: Seq<char>, c: Option<OutboundConfig>, has_proxy: bool) -> UdpRoute {
    match c {
        Some(c) if c.enabled => match decided(target, "udp"@, c).0 {
            OutboundAction::Block => UdpRoute::Blocked,
            OutboundAction::Proxy => if has_proxy {
                UdpRoute::Proxy
            } else {
                UdpRoute::NoProxy
            },
            OutboundAction::Direct => UdpRoute::Direct,
        },
        _ => UdpRoute::Direct,
    }
}

/// How a datagram leaves the server.
pub fn route_datagram(target: &str, outbound: &Option<OutboundConfig>, has_proxy: bool) -> (r: UdpRoute)
    ensures
        r == datagram_way(target@, *outbound, has_proxy),
{
    match outbound {
        Some(c) => {
            if !c.enabled {
                return UdpRoute::Direct;
            }
            let (action, _) = select_outbound_action(target, "udp", c);
            match action {
                OutboundAction::Block => UdpRoute::Blocked,
                OutboundAction::Proxy => if has_proxy {
                    UdpRoute::Proxy
                } else {
                    UdpRoute::NoProxy
                },
                OutboundAction::Direct => UdpRoute::Direct,
            }
        },
        None => UdpRoute::Direct,
    }
}

/// Whether a UDP association asks the proxy for one of its own: an upstream of
/// any other protocol cannot carry UDP. The case of the protocol does not matter.
pub fn wants_udp_proxy(outbound: &Option<OutboundConfig>) -> (r: bool)
    ensures
        r == (outbound matches Some(c) && c.enabled && lower(c.protocol@) == "socks5"@),
{
    match outbound {
        Some(c) => c.enabled && same_str(&lower_str(&c.protocol), "socks5"),
        None => false,
    }
}

// ── Candidate addresses ──────────────────────────────────────────────────────

/// The addresses of one family, in order.
pub open spec fn family(addrs: Seq<SocketAddr>, v6: bool) -> Seq<SocketAddr>
    decreases addrs.len(),
{
    if addrs.len() == 0 {
        Seq::empty()
    } else if (addrs.last().ip is V6) == v6 {
        family(addrs.drop_last(), v6).push(addrs.last())
    } else {
        family(addrs.drop_last(), v6)
    }
}

fn put_family(out: &mut Vec<SocketAddr>, addrs: &Vec<SocketAddr>, v6: bool)
    ensures
        final(out)@ == old(out)@ + family(addrs@, v6),
{
    let mut i: usize = 0;
    assert(out@ =~= old(out)@ + family(addrs@.subrange(0, 0), v6));
    while i < addrs.len()
        invariant
            i <= addrs@.len(),
            out@ == old(out)@ + family(addrs@.subrange(0, i as int), v6),
        decreases addrs@.len() - i,
    {
        let ghost t = addrs@.subrange(0, i + 1);
        assert(t.drop_last() =~= addrs@.subrange(0, i as int));
        assert(t.last() == addrs@[i as int]);
        let is_v6 = match addrs[i].ip {
            IpAddr::V6(_) => true,
            IpAddr::V4(_) => false,
        };
        if is_v6 == v6 {
            out.push(addrs[i]);
        }
        assert(out@ =~= old(out)@ + family(t, v6));
        i += 1;
    }
    assert(addrs@.subrange(0, i as int) =~= addrs@);
}

/// IPv4 addresses before IPv6 ones, each family in the order it had: an IPv6
/// address without a working route must not use up the time for the others.
pub fn prefer_ipv4_first(addrs: &Vec<SocketAddr>) -> (r: Vec<SocketAddr>)
    ensures
        r@ == family(addrs@, false) + family(addrs@, true),
{
    let mut out: Vec<SocketAddr> = Vec::new();
    put_family(&mut out, addrs, false);
    assert(out@ =~= family(addrs@, false));
    put_family(&mut out, addrs, true);
    out
}

/// Whether a connection to `addr` can come from `bind`: from one of its family.
pub fn binds(addr: SocketAddr, bind: IpAddr) -> (r: bool)
    ensures
        r == ((addr.ip is V4) == (bind is V4)),
{
    match (addr.ip, bind) {
        (IpAddr::V4(_), IpAddr::V4(_)) => true,
        (IpAddr::V6(_), IpAddr::V6(_)) => true,
        _ => false,
    }
}

// ── Laws ─────────────────────────────────────────────────────────────────────

/// A connection that the rules send to the proxy is never made directly, and one
/// that they block is not made at all.
pub proof fn rules_fail_closed(target: Seq<char>, c: OutboundConfig, bind: Option<Seq<char>>, has_proxy: bool)
    requires
        c.enabled,
    ensures
        decided(target, "tcp"@, c).0 is Proxy ==> !(tcp_way(target, Some(c), bind) is Direct),
        decided(target, "tcp"@, c).0 is Block ==> tcp_way(target, Some(c), bind) is Blocked,
        decided(target, "udp"@, c).0 is Proxy ==> !(udp_way(target, Some(c), bind) is Direct) && !(datagram_way(
            target,
            Some(c),
            has_proxy,
        ) is Direct),
        decided(target, "udp"@, c).0 is Block ==> udp_way(target, Some(c), bind) is Blocked && datagram_way(
            target,
            Some(c),
            has_proxy,
        ) is Blocked,
{
}

/// The first rule that covers a connection decides; later rules do not matter.
pub proof fn the_first_rule_decides(
    before: Seq<OutboundRule>,
    rule: OutboundRule,
    after: Seq<OutboundRule>,
    host: Seq<char>,
    protocol: Seq<char>,
)
    requires
        forall|i: int| 0 <= i < before.len() ==> !covers(#[trigger] before[i], host, protocol),
        covers(rule, host, protocol),
    ensures
        first_rule(before + seq![rule] + after, host, protocol) == Some(rule),
    decreases before.len(),
{
    let all = before + seq![rule] + after;
    if before.len() > 0 {
        let rest = before.drop_first();
        assert(all[0] == before[0]);
        assert(all.drop_first() =~= rest + seq![rule] + after);
        assert forall|i: int| 0 <= i < rest.len() implies !covers(#[trigger] rest[i], host, protocol) by {
            assert(rest[i] == before[i + 1]);
        }
        the_first_rule_decides(rest, rule, after, host, protocol);
    } else {
        assert(all[0] == rule);
    }
}

/// Every address stays a candidate, and no other becomes one.
pub proof fn preferring_loses_no_address(addrs: Seq<SocketAddr>, a: SocketAddr)
    ensures
        (family(addrs, false) + family(addrs, true)).contains(a) <==> addrs.contains(a),
        (family(addrs, false) + family(addrs, true)).len() == addrs.len(),
    decreases addrs.len(),
{
    let f = family(addrs, false);
    let g = family(addrs, true);
    let all = f + g;
    if addrs.len() > 0 {
        let d = addrs.drop_last();
        let l = addrs.last();
        preferring_loses_no_address(d, a);
        let f0 = family(d, false);
        let g0 = family(d, true);
        let all0 = f0 + g0;
        if all.contains(a) {
            let i = choose|i: int| 0 <= i < all.len() && all[i] == a;
            if a == l {
                assert(addrs[addrs.len() - 1] == a);
            } else {
                if i < f.len() {
                    assert(f[i] == a);
                    assert(f0[i] == a);
                    assert(all0[i] == a);
                } else {
                    let k = i - f.len();
                    assert(g[k] == a);
                    assert(g0[k] == a);
                    assert(all0[f0.len() + k] == a);
                }
                assert(d.contains(a));
                let j = choose|j: int| 0 <= j < d.len() && d[j] == a;
                assert(addrs[j] == a);
            }
        }
        if addrs.contains(a) {
            if a == l {
                if l.ip is V6 {
                    assert(all[all.len() - 1] == a);
                } else {
                    assert(all[f.len() - 1] == a);
                }
            } else {
                let j = choose|j: int| 0 <= j < addrs.len() && addrs[j] == a;
                assert(d[j] == a);
                assert(d.contains(a));
                let i = choose|i: int| 0 <= i < all0.len() && all0[i] == a;
                if i < f0.len() {
                    assert(all[i] == a);
                } else {
                    assert(all[f.len() + (i - f0.len())] == a);
                }
            }
        }
    }
}

// ── What rules are for ───────────────────────────────────────────────────────

proof fn lemma_without_bits(n: int, k: int)
    requires
        0 <= n,
        0 <= k,
    ensures
        without_bits(n, k) == n / vstd::arithmetic::power2::pow2(k as nat) as int,
    decreases k,
{
    vstd::arithmetic::power2::lemma_pow2_pos(k as nat);
    let q = vstd::arithmetic::power2::pow2(k as nat) as int;
    if k == 0 {
        vstd::arithmetic::power2::lemma2_to64();
        assert(q == 1);
        vstd::arithmetic::div_mod::lemma_div_basics(n);
    } else {
        lemma_without_bits(n / 2, k - 1);
        let p = vstd::arithmetic::power2::pow2((k - 1) as nat) as int;
        vstd::arithmetic::power2::lemma_pow2_pos((k - 1) as nat);
        vstd::arithmetic::power2::lemma_pow2_unfold(k as nat);
        vstd::arithmetic::div_mod::lemma_div_denominator(n, 2, p);
        assert(without_bits(n, k) == (n / 2) / p);
        assert(q == 2 * p);
        assert(n / q == n / (2 * p));
    }
}

/// A network has the addresses of its family whose leading bits are its own: with `b` of them,
/// those that lie in the same block of as many addresses as the other bits count.
pub proof fn networks_have_blocks_of_addresses(net: u32, bits: u8, a: u32, net6: u128, bits6: u8, a6: u128)
    requires
        bits <= 32,
        bits6 <= 128,
    ensures
        ({
            let size = vstd::arithmetic::power2::pow2((32 - bits) as nat) as int;
            Cidr::V4(net, bits).has(IpAddr::V4(a)) <==> a as int / size == net as int / size
        }),
        ({
            let size = vstd::arithmetic::power2::pow2((128 - bits6) as nat) as int;
            Cidr::V6(net6, bits6).has(IpAddr::V6(a6)) <==> a6 as int / size == net6 as int / size
        }),
        Cidr::V4(net, 32).has(IpAddr::V4(a)) <==> a == net,
        Cidr::V4(net, 0).has(IpAddr::V4(a)),
        !Cidr::V4(net, bits).has(IpAddr::V6(a6)),
        !Cidr::V6(net6, bits6).has(IpAddr::V4(a)),
{
    lemma_without_bits(a as int, 32 - bits);
    lemma_without_bits(net as int, 32 - bits);
    lemma_without_bits(a6 as int, 128 - bits6);
    lemma_without_bits(net6 as int, 128 - bits6);
    lemma_without_bits(a as int, 32);
    lemma_without_bits(net as int, 32);
    vstd::arithmetic::power2::lemma2_to64();
    let all = vstd::arithmetic::power2::pow2(32) as int;
    assert(all == 0x1_0000_0000);
    assert(a as int / 0x1_0000_0000 == 0 && net as int / 0x1_0000_0000 == 0);
    assert(a as int / all == 0 && net as int / all == 0);
}

/// A text that is an address stands for that address alone, and one with a number of bits
/// behind it for the network.
pub proof fn networks_are_read(addr: Seq<char>, bits: Seq<char>, ip: IpAddr, b: int)
    requires
        read_ip(addr) == Some(ip),
        trim(addr) == addr,
        split_once(addr, '/') is None,
    ensures
        read_cidr(addr) == Some(
            match ip {
                IpAddr::V4(v) => Cidr::V4(v, 32),
                IpAddr::V6(v) => Cidr::V6(v, 128),
            },
        ),
        trim(addr + seq!['/'] + bits) == addr + seq!['/'] + bits && split_once(addr + seq!['/'] + bits, '/') == Some(
            (addr, bits),
        ) && parse_number(bits, 255) == Some(b) ==> read_cidr(addr + seq!['/'] + bits) == Some(
            match ip {
                IpAddr::V4(v) => Cidr::V4(
                    v,
                    if b < 32 {
                        b as u8
                    } else {
                        32
                    },
                ),
                IpAddr::V6(v) => Cidr::V6(
                    v,
                    if b < 128 {
                        b as u8
                    } else {
                        128
                    },
                ),
            },
        ),
{
}

/// Whether a rule speaks of a connection to an address: one of its texts reads as a network
/// that has the address.
pub open spec fn names_network_of(rule: OutboundRule, ip: IpAddr) -> bool {
    exists|i: int|
        0 <= i < rule.ip_cidr@.len() && (read_cidr((#[trigger] rule.ip_cidr@[i])@) matches Some(c) && c.has(ip))
}

/// Whether a rule speaks of a host by its name: one of its suffixes is the host, or the host is
/// a name below it.
pub open spec fn names_domain_of(rule: OutboundRule, host: Seq<char>) -> bool {
    exists|i: int|
        0 <= i < rule.domain_suffix@.len() && {
            let s = unicode_lower(trim_start_char(trim((#[trigger] rule.domain_suffix@[i])@), '.'));
            let h = unicode_lower(trim_end_char(host, '.'));
            s.len() > 0 && (h == s || ends_with(h, seq!['.'] + s))
        }
}

/// Whether a rule is about a connection: its protocol is that of the connection, where it has
/// one, and it names the host's domain or network, unless it names none at all.
pub open spec fn is_about(rule: OutboundRule, host: Seq<char>, protocol: Seq<char>) -> bool {
    &&& rule.protocol matches Some(p) ==> p@.len() == 0 || unicode_lower(p@) == protocol
    &&& (rule.domain_suffix@.len() == 0 && rule.ip_cidr@.len() == 0) || names_domain_of(rule, host) || (read_ip(
        host,
    ) matches Some(ip) && names_network_of(rule, ip))
}

/// A rule covers the connections that it is about, and no others.
pub proof fn rules_cover_what_they_are_about(rule: OutboundRule, host: Seq<char>, protocol: Seq<char>)
    ensures
        covers(rule, host, protocol) <==> is_about(rule, host, protocol),
{
    let d = string_views(rule.domain_suffix@);
    let n = string_views(rule.ip_cidr@);
    assert(forall|i: int| 0 <= i < d.len() ==> d[i] == rule.domain_suffix@[i]@);
    assert(forall|i: int| 0 <= i < n.len() ==> n[i] == rule.ip_cidr@[i]@);
    if names_domain_of(rule, host) {
        let i = choose|i: int|
            0 <= i < rule.domain_suffix@.len() && {
                let s = unicode_lower(trim_start_char(trim((#[trigger] rule.domain_suffix@[i])@), '.'));
                let h = unicode_lower(trim_end_char(host, '.'));
                s.len() > 0 && (h == s || ends_with(h, seq!['.'] + s))
            };
        assert(below(rule_host(host), rule_suffix(d[i])));
    }
    if domain_hit(host, d) {
        let i = choose|i: int| 0 <= i < d.len() && below(rule_host(host), rule_suffix(#[trigger] d[i]));
        assert(rule.domain_suffix@[i]@ == d[i]);
    }
    if let Some(ip) = read_ip(host) {
        if names_network_of(rule, ip) {
            let i = choose|i: int|
                0 <= i < rule.ip_cidr@.len() && (read_cidr((#[trigger] rule.ip_cidr@[i])@) matches Some(c) && c.has(ip));
            assert(read_cidr(n[i]) is Some);
        }
        if ip_hit(host, n) {
            let i = choose|i: int| 0 <= i < n.len() && (read_cidr(#[trigger] n[i]) matches Some(c) && c.has(ip));
            assert(rule.ip_cidr@[i]@ == n[i]);
        }
    }
}

proof fn lemma_first_rule(rules: Seq<OutboundRule>, k: int, host: Seq<char>, protocol: Seq<char>)
    requires
        0 <= k <= rules.len(),
        forall|j: int| 0 <= j < k ==> !is_about(#[trigger] rules[j], host, protocol),
        k < rules.len() ==> is_about(rules[k], host, protocol),
    ensures
        first_rule(rules, host, protocol) == if k < rules.len() {
            Some(rules[k])
        } else {
            None
        },
    decreases k,
{
    if rules.len() > 0 {
        rules_cover_what_they_are_about(rules[0], host, protocol);
    }
    if k > 0 {
        assert(!is_about(rules[0], host, protocol));
        let rest = rules.drop_first();
        assert forall|j: int| 0 <= j < k - 1 implies !is_about(#[trigger] rest[j], host, protocol) by {
            assert(rest[j] == rules[j + 1]);
        }
        lemma_first_rule(rest, k - 1, host, protocol);
    }
}

/// The first rule that is about a connection decides over it: its action and its source are
/// taken. Where none is, the default is taken. A target without a host and a port gets the
/// default too.
pub proof fn the_first_rule_about_a_target_decides(
    target: Seq<char>,
    host: Seq<char>,
    port: int,
    protocol: Seq<char>,
    c: OutboundConfig,
    k: int,
)
    requires
        0 <= k <= c.rules@.len(),
        forall|j: int| 0 <= j < k ==> !is_about(#[trigger] c.rules@[j], host, protocol),
        k < c.rules@.len() ==> is_about(c.rules@[k], host, protocol),
    ensures
        host_port(target) == Some((host, port)) ==> decided(target, protocol, c) == if k < c.rules@.len() {
            (
                c.rules@[k].action,
                match c.rules@[k].send_from {
                    Some(s) => Some(s@),
                    None => None,
                },
            )
        } else {
            (c.default_action, None)
        },
        host_port(target) is None ==> decided(target, protocol, c) == (c.default_action, None::<Seq<char>>),
{
    lemma_first_rule(c.rules@, k, host, protocol);
}

/// A rule for networks decides over the addresses in them: where no earlier rule is about the
/// target, a rule without a protocol that has the target's address in one of its networks gives
/// its action and its source.
pub proof fn network_rules_decide(
    target: Seq<char>,
    host: Seq<char>,
    port: int,
    ip: IpAddr,
    protocol: Seq<char>,
    c: OutboundConfig,
    k: int,
    i: int,
    net: Cidr,
)
    requires
        host_port(target) == Some((host, port)),
        read_ip(host) == Some(ip),
        0 <= k < c.rules@.len(),
        forall|j: int| 0 <= j < k ==> !is_about(#[trigger] c.rules@[j], host, protocol),
        c.rules@[k].protocol is None,
        0 <= i < c.rules@[k].ip_cidr@.len(),
        read_cidr(c.rules@[k].ip_cidr@[i]@) == Some(net),
        net.has(ip),
    ensures
        decided(target, protocol, c).0 == c.rules@[k].action,
        decided(target, protocol, c).1 == match c.rules@[k].send_from {
            Some(s) => Some(s@),
            None => None,
        },
{
    assert(names_network_of(c.rules@[k], ip));
    the_first_rule_about_a_target_decides(target, host, port, protocol, c, k);
}

/// A rule for a domain decides over the names in it: where no earlier rule is about the target,
/// a rule without a protocol that names the target's host, or a name above it, gives its action
/// and its source.
pub proof fn domain_rules_decide(
    target: Seq<char>,
    host: Seq<char>,
    port: int,
    protocol: Seq<char>,
    c: OutboundConfig,
    k: int,
    i: int,
)
    requires
        host_port(target) == Some((host, port)),
        0 <= k < c.rules@.len(),
        forall|j: int| 0 <= j < k ==> !is_about(#[trigger] c.rules@[j], host, protocol),
        c.rules@[k].protocol is None,
        0 <= i < c.rules@[k].domain_suffix@.len(),
        ({
            let s = unicode_lower(trim_start_char(trim(c.rules@[k].domain_suffix@[i]@), '.'));
            let h = unicode_lower(trim_end_char(host, '.'));
            s.len() > 0 && (h == s || ends_with(h, seq!['.'] + s))
        }),
    ensures
        decided(target, protocol, c).0 == c.rules@[k].action,
        decided(target, protocol, c).1 == match c.rules@[k].send_from {
            Some(s) => Some(s@),
            None => None,
        },
{
    assert(names_domain_of(c.rules@[k], host));
    the_first_rule_about_a_target_decides(target, host, port, protocol, c, k);
}

/// Without a proxy, or with one that is turned off, connections leave directly from the
/// server's own source. With one, what the rules decide is done: a connection that they block
/// is not made, one that they send to the proxy goes there, and one that they let leave does so
/// from the source that they ask for, or from the server's own.
pub proof fn connections_go_where_the_rules_send_them(target: Seq<char>, c: OutboundConfig, bind: Option<Seq<char>>)
    ensures
        tcp_way(target, None, bind) == Way::Direct(bind),
        udp_way(target, None, bind) == Way::Direct(bind),
        !c.enabled ==> tcp_way(target, Some(c), bind) == Way::Direct(bind) && udp_way(target, Some(c), bind)
            == Way::Direct(bind) && datagram_way(target, Some(c), true) == UdpRoute::Direct,
        c.enabled ==> {
            let (action, from) = decided(target, "tcp"@, c);
            let src = match from {
                Some(s) => Some(s),
                None => bind,
            };
            let proxy = c.address@ + seq![':'] + decimal(c.port as nat);
            &&& action is Block ==> tcp_way(target, Some(c), bind) == Way::Blocked
            &&& action is Direct ==> tcp_way(target, Some(c), bind) == Way::Direct(src)
            &&& action is Proxy && lower(c.protocol@) == "socks5"@ ==> tcp_way(target, Some(c), bind) == Way::Socks5(
                proxy,
                src,
            )
            &&& action is Proxy && lower(c.protocol@) == "http"@ && "http"@ != "socks5"@ ==> tcp_way(
                target,
                Some(c),
                bind,
            ) == Way::Http(proxy, src)
            &&& action is Proxy && lower(c.protocol@) != "socks5"@ && lower(c.protocol@) != "http"@ ==> tcp_way(
                target,
                Some(c),
                bind,
            ) is Unsupported
        },
        c.enabled ==> {
            let (action, from) = decided(target, "udp"@, c);
            &&& action is Block ==> udp_way(target, Some(c), bind) == Way::Blocked && datagram_way(
                target,
                Some(c),
                true,
            ) == UdpRoute::Blocked
            &&& action is Direct ==> udp_way(target, Some(c), bind) == Way::Direct(bind) && datagram_way(
                target,
                Some(c),
                true,
            ) == UdpRoute::Direct
            &&& action is Proxy ==> datagram_way(target, Some(c), true) == UdpRoute::Proxy && datagram_way(
                target,
                Some(c),
                false,
            ) == UdpRoute::NoProxy
        },
{
}

/// A target is a host and a port behind its last colon; an IPv6 address stands in brackets,
/// which are no part of the host.
pub proof fn targets_are_hosts_and_ports(host: Seq<char>, port: Seq<char>, p: int)
    requires
        parse_number(port, 0xffff) == Some(p),
        crate::text::all_digits(port),
        rsplit_once(host + seq![':'] + port, ':') == Some((host, port)),
    ensures
        !has_char(host, ':') && !(host.len() > 0 && host[0] == '[' && host.last() == ']') ==> host_port(
            host + seq![':'] + port,
        ) == Some((host, p)),
        has_char(host, ':') && host[0] != '[' ==> host_port(host + seq![':'] + port) is None,
        host.len() > 0 && host[0] == '[' && host.last() == ']' ==> host_port(host + seq![':'] + port) == Some(
            (trim_end_char(trim_start_char(host, '['), ']'), p),
        ),
{
}

proof fn lemma_family(addrs: Seq<SocketAddr>, v6: bool)
    ensures
        forall|i: int| 0 <= i < family(addrs, v6).len() ==> ((#[trigger] family(addrs, v6)[i]).ip is V6 <==> v6),
    decreases addrs.len(),
{
    if addrs.len() > 0 {
        lemma_family(addrs.drop_last(), v6);
    }
}

/// Of the addresses of a host, the IPv4 ones are tried before the IPv6 ones.
pub proof fn ipv4_addresses_come_first(addrs: Seq<SocketAddr>, i: int, j: int)
    requires
        ({
            let all = family(addrs, false) + family(addrs, true);
            0 <= i < all.len() && 0 <= j < all.len() && all[i].ip is V6 && !(all[j].ip is V6)
        }),
    ensures
        j < i,
{
    lemma_family(addrs, false);
    lemma_family(addrs, true);
}

} // verus!
