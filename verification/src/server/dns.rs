//! The server's resolver: where its own requests go, and the queries that come over
//! TCP.

use vstd::prelude::*;

use crate::bytes::{get_u16, u16_at};
use crate::server::outbound::OutboundConfig;
use crate::server::sniff::{frame_packet, stream_frame};
use crate::text::{chars_of, decimal, lower, lower_str, put_decimal, put_str, same_str, string_of};

verus! {

/// The name and password of a proxy, as they stand before its address.
pub open spec fn proxy_auth(username: Seq<char>, password: Seq<char>) -> Seq<char> {
    if username.len() == 0 {
        Seq::empty()
    } else {
        username + ":"@ + password + "@"@
    }
}

/// The scheme of a proxy's address. The case of the protocol does not matter.
pub open spec fn proxy_scheme(protocol: Seq<char>) -> Option<Seq<char>> {
    if lower(protocol) == "socks5"@ {
        Some("socks5h://"@)
    } else if lower(protocol) == "http"@ {
        Some("http://"@)
    } else {
        None
    }
}

/// The proxy that the resolver's own requests go through, when there is one and it is
/// on.
pub open spec fn proxy_of(outbound: Option<OutboundConfig>) -> Option<Seq<char>> {
    match outbound {
        Some(o) => if !o.enabled {
            None
        } else {
            match proxy_scheme(o.protocol@) {
                Some(s) => Some(s + proxy_auth(o.username@, o.password@) + o.address@ + ":"@ + decimal(o.port as nat)),
                None => None,
            }
        },
        None => None,
    }
}

/// The address of the proxy that the resolver's own requests go through.
pub fn proxy_url(outbound: Option<&OutboundConfig>) -> (r: Option<String>)
    ensures
        match r {
            Some(u) => outbound is Some && proxy_of(Some(*outbound->Some_0)) == Some(u@),
            None => outbound is None || proxy_of(Some(*outbound->Some_0)) is None,
        },
{
    let o = match outbound {
        Some(o) => o,
        None => {
            return None;
        },
    };
    if !o.enabled {
        return None;
    }
    let mut v: Vec<char> = Vec::new();
    proof {
        reveal_strlit("socks5");
        reveal_strlit("http");
    }
    let protocol = lower_str(&o.protocol);
    if same_str(&protocol, "socks5") {
        put_str(&mut v, "socks5h://");
    } else if same_str(&protocol, "http") {
        put_str(&mut v, "http://");
    } else {
        return None;
    }
    if chars_of(&o.username).len() > 0 {
        put_str(&mut v, &o.username);
        put_str(&mut v, ":");
        put_str(&mut v, &o.password);
        put_str(&mut v, "@");
    }
    put_str(&mut v, &o.address);
    put_str(&mut v, ":");
    put_decimal(&mut v, o.port as u64);
    assert(proxy_of(Some(*o)) matches Some(t) && v@ =~= t);
    Some(string_of(&v))
}

/// The length of a query that comes over TCP, from the two bytes before it; none ends
/// the connection.
pub fn query_length(prefix: &[u8; 2]) -> (r: Option<usize>)
    ensures
        r == if u16_at(prefix@, 0) == 0 {
            None::<usize>
        } else {
            Some(u16_at(prefix@, 0) as usize)
        },
{
    let n: u16 = get_u16(prefix, 0);
    if n == 0 {
        None
    } else {
        Some(n as usize)
    }
}

/// An answer as it goes over TCP.
pub fn framed_answer(answer: &[u8]) -> (r: Vec<u8>)
    ensures
        r@ == stream_frame(answer@),
{
    frame_packet(answer)
}

/// Names are resolved through the proxy that connections take: with the scheme of its protocol,
/// the credentials where there is a name, and its address. A proxy that is turned off, or of
/// another protocol, is not taken.
pub proof fn names_are_resolved_through_the_proxy(o: OutboundConfig)
    ensures
        proxy_of(None) is None,
        !o.enabled ==> proxy_of(Some(o)) is None,
        o.enabled && lower(o.protocol@) == "socks5"@ && o.username@.len() == 0 ==> proxy_of(Some(o)) == Some(
            "socks5h://"@ + o.address@ + ":"@ + decimal(o.port as nat),
        ),
        o.enabled && lower(o.protocol@) == "socks5"@ && o.username@.len() > 0 ==> proxy_of(Some(o)) == Some(
            "socks5h://"@ + o.username@ + ":"@ + o.password@ + "@"@ + o.address@ + ":"@ + decimal(o.port as nat),
        ),
        o.enabled && lower(o.protocol@) != "socks5"@ && lower(o.protocol@) != "http"@ ==> proxy_of(Some(o)) is None,
{
    assert("socks5h://"@ + Seq::<char>::empty() =~= "socks5h://"@);
    assert("socks5h://"@ + (o.username@ + ":"@ + o.password@ + "@"@) =~= "socks5h://"@ + o.username@ + ":"@ + o.password@
        + "@"@);
}

} // verus!
