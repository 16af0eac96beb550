//! The way of a TCP connection by name: through the server's resolver, to the
//! server itself, or out.

use vstd::prelude::*;

use crate::net::{parse_ip, read_ip, read_socket, show_socket, socket_of, IpAddr, SocketAddr};
use crate::text::{chars_of, ends_str, ends_with, number, owned, parse_number, rcut, rsplit_once, string_of};

verus! {

/// The address under which clients reach the server itself: 10.1.0.1.
pub const SELF_V4: u32 = 0x0a01_0001;

/// The loopback address 127.0.0.1.
pub const LOOPBACK_V4: u32 = 0x7f00_0001;

/// The server itself is its loopback address.
pub open spec fn own(ip: IpAddr) -> IpAddr {
    if ip == IpAddr::V4(SELF_V4) {
        IpAddr::V4(LOOPBACK_V4)
    } else {
        ip
    }
}

fn own_address(ip: IpAddr) -> (r: IpAddr)
    ensures
        r == own(ip),
{
    if ip == IpAddr::V4(SELF_V4) {
        IpAddr::V4(LOOPBACK_V4)
    } else {
        ip
    }
}

/// The name that is to be resolved for a target: its host, unless that is an
/// address.
pub open spec fn name_in(target: Seq<char>) -> Option<Seq<char>> {
    match rsplit_once(target, ':') {
        Some((host, _)) => if read_ip(host) is None && !(host.len() > 0 && host[0] == '[') {
            Some(host)
        } else {
            None
        },
        None => None,
    }
}

/// The name that is to be resolved for a target.
pub fn name_to_resolve(target: &str) -> (r: Option<String>)
    ensures
        match r {
            Some(n) => name_in(target@) == Some(n@),
            None => name_in(target@) is None,
        },
{
    let t = chars_of(target);
    match rcut(&t, ':') {
        Some((host, _)) => {
            if parse_ip(host).is_some() || (host.len() > 0 && host[0] == '[') {
                None
            } else {
                Some(string_of(host))
            }
        },
        None => None,
    }
}

/// What is done with a connection first.
pub enum TcpStep {
    /// It is refused: encrypted DNS would pass the filter unread.
    Refuse,
    /// It goes to the server's own resolver.
    Dns,
    /// A name is resolved.
    Resolve(String),
    /// It goes to its target.
    Go,
}

/// What is done with a connection first.
pub enum TcpTurn {
    Refuse,
    Dns,
    Resolve(Seq<char>),
    Go,
}

impl View for TcpStep {
    type V = TcpTurn;

    open spec fn view(&self) -> TcpTurn {
        match *self {
            TcpStep::Refuse => TcpTurn::Refuse,
            TcpStep::Dns => TcpTurn::Dns,
            TcpStep::Resolve(n) => TcpTurn::Resolve(n@),
            TcpStep::Go => TcpTurn::Go,
        }
    }
}

/// What is done with a connection to `target` first, where `bypass` says that it would
/// pass the filter, and `intercept` that the server answers queries itself.
pub open spec fn tcp_turn(target: Seq<char>, bypass: bool, intercept: bool) -> TcpTurn {
    if bypass {
        TcpTurn::Refuse
    } else if intercept && ends_with(target, ":53"@) {
        TcpTurn::Dns
    } else {
        match name_in(target) {
            Some(n) => TcpTurn::Resolve(n),
            None => TcpTurn::Go,
        }
    }
}

/// What is done with a connection to a target first.
pub fn first_step(target: &str, bypass: bool, intercept: bool) -> (r: TcpStep)
    ensures
        r@ == tcp_turn(target@, bypass, intercept),
{
    if bypass {
        return TcpStep::Refuse;
    }
    let t = chars_of(target);
    if intercept && ends_str(&t, ":53") {
        return TcpStep::Dns;
    }
    match name_to_resolve(target) {
        Some(n) => TcpStep::Resolve(n),
        None => TcpStep::Go,
    }
}

/// The target after its name was resolved to `ip`, or left as it is: an address
/// is used unless the connection is proxied, which keeps the rules on names
/// working; one that the server's own records give is used always.
pub open spec fn resolved(target: Seq<char>, ip: Option<IpAddr>, proxied: bool, rewritten: bool) -> Seq<char> {
    match (ip, rsplit_once(target, ':')) {
        (Some(ip), Some((_, port))) => if !proxied || rewritten {
            show_socket(
                SocketAddr {
                    ip: own(ip),
                    port: match parse_number(port, 0xffff) {
                        Some(p) => p as u16,
                        None => 0,
                    },
                    scope_id: 0,
                },
            )
        } else {
            target
        },
        _ => target,
    }
}

/// The target after its name was resolved.
pub fn resolved_target(target: &str, ip: Option<IpAddr>, proxied: bool, rewritten: bool) -> (r: String)
    ensures
        r@ == resolved(target@, ip, proxied, rewritten),
{
    let t = chars_of(target);
    match (ip, rcut(&t, ':')) {
        (Some(ip), Some((_, port))) => {
            if !proxied || rewritten {
                let p: u16 = match number(port, 0xffff) {
                    Some(p) => p as u16,
                    None => 0,
                };
                SocketAddr { ip: own_address(ip), port: p, scope_id: 0 }.text()
            } else {
                owned(target)
            }
        },
        _ => owned(target),
    }
}

/// The address to connect to where the target is the server itself: neither the
/// proxy nor another source address reach its loopback.
pub open spec fn local_target(target: Seq<char>) -> Option<SocketAddr> {
    match read_socket(target) {
        Some(a) => if own(a.ip).loopback() {
            Some(SocketAddr { ip: own(a.ip), port: a.port, scope_id: 0 })
        } else {
            None
        },
        None => None,
    }
}

/// The address to connect to where the target is the server itself.
pub fn own_target(target: &str) -> (r: Option<SocketAddr>)
    ensures
        r == local_target(target@),
{
    match socket_of(target) {
        Some(a) => {
            let ip = own_address(a.ip);
            if ip.is_loopback() {
                Some(SocketAddr { ip, port: a.port, scope_id: 0 })
            } else {
                None
            }
        },
        None => None,
    }
}

/// The server itself is always reached directly, under both of its addresses.
pub proof fn the_server_itself_is_reached_directly(target: Seq<char>, port: u16, scope: u32)
    requires
        read_socket(target) == Some(SocketAddr { ip: IpAddr::V4(SELF_V4), port, scope_id: scope }) || read_socket(target)
            == Some(SocketAddr { ip: IpAddr::V4(LOOPBACK_V4), port, scope_id: scope }),
    ensures
        local_target(target) == Some(SocketAddr { ip: IpAddr::V4(LOOPBACK_V4), port, scope_id: 0 }),
{
}

/// A connection that would go round the resolver is refused; one to the port of DNS goes to the
/// resolver, where that is to be so; one to a name has the name resolved; and one to an address
/// goes there.
pub proof fn connections_are_sorted(target: Seq<char>, bypass: bool, intercept: bool, host: Seq<char>, port: Seq<char>)
    requires
        rsplit_once(target, ':') == Some((host, port)),
    ensures
        bypass ==> tcp_turn(target, bypass, intercept) == TcpTurn::Refuse,
        !bypass && intercept && ends_with(target, ":53"@) ==> tcp_turn(target, bypass, intercept) == TcpTurn::Dns,
        !bypass && !(intercept && ends_with(target, ":53"@)) && read_ip(host) is None && (host.len() == 0 || host[0]
            != '[') ==> tcp_turn(target, bypass, intercept) == TcpTurn::Resolve(host),
        !bypass && !(intercept && ends_with(target, ":53"@)) && (read_ip(host) is Some || (host.len() > 0 && host[0]
            == '[')) ==> tcp_turn(target, bypass, intercept) == TcpTurn::Go,
{
}

/// A name that was resolved is replaced by its address, with the same port, where the server
/// connects itself or the name was rewritten; a proxy is told the name. Without an address the
/// target stays as it is.
pub proof fn resolved_names_are_replaced(
    target: Seq<char>,
    host: Seq<char>,
    port: Seq<char>,
    p: int,
    ip: IpAddr,
    rewritten: bool,
)
    requires
        rsplit_once(target, ':') == Some((host, port)),
        parse_number(port, 0xffff) == Some(p),
        0 <= p <= 0xffff,
        ip != IpAddr::V4(0x0a01_0001),
    ensures
        resolved(target, Some(ip), false, rewritten) == show_socket(SocketAddr { ip, port: p as u16, scope_id: 0 }),
        resolved(target, Some(ip), true, true) == show_socket(SocketAddr { ip, port: p as u16, scope_id: 0 }),
        resolved(target, Some(ip), true, false) == target,
        resolved(target, None, false, rewritten) == target,
        resolved(target, Some(IpAddr::V4(0x0a01_0001)), false, rewritten) == show_socket(
            SocketAddr { ip: IpAddr::V4(0x7f00_0001), port: p as u16, scope_id: 0 },
        ),
{
}

/// Only the server itself is local: no other address is.
pub proof fn other_addresses_are_not_local(target: Seq<char>)
    requires
        read_socket(target) matches Some(a) && a.ip != IpAddr::V4(0x0a01_0001) && !a.ip.loopback(),
    ensures
        local_target(target) is None,
{
}

} // verus!
