//! The client side of SOCKS5 and of HTTP `CONNECT`: what is sent to a proxy, and
//! what its answers mean.

use vstd::prelude::*;
use vstd::slice::slice_subrange;
use vstd::utf8::encode_utf8;

use crate::bytes::{
    be16, be32, be64, copy_range, get_u16, get_u32, get_u64, put_slice, put_u16, put_u32, put_u64, u16_at, u32_at, u64_at,
};
use crate::net::{ip_of, read_ip, show_ip, IpAddr, SocketAddr};
use crate::server::outbound::{host_port, split_host_port};
use crate::text::{
    begins_str, chars_of, decimal, lossy_text, put_decimal, put_str, starts_with, string_of, utf8_lossy, utf8_of,
};

verus! {

broadcast use crate::bytes::group_big_endian;

/// Why a proxy cannot be used.
#[derive(Clone, Copy, Debug, PartialEq, Eq, Structural)]
pub enum Socks5Error {
    /// Name or password are longer than 255 bytes.
    CredentialsTooLong,
    /// The proxy speaks another version.
    Version(u8),
    /// The proxy takes none of the methods that were offered.
    NoMethod,
    /// The proxy chose a method that was not offered.
    Method(u8),
    /// The proxy refused name and password.
    Rejected(u8),
    /// The proxy refused the request.
    Refused(u8),
    /// The proxy answered with an address of unknown type.
    AddressType(u8),
    /// The target has no host and port.
    InvalidTarget,
}

/// The first message: authentication by name and password is offered beside none
/// where there is a name.
pub open spec fn greeting(username: Seq<char>) -> Seq<u8> {
    if username.len() > 0 {
        seq![5u8, 2, 0, 2]
    } else {
        seq![5u8, 1, 0]
    }
}

pub fn socks5_greeting(username: &str, password: &str) -> (r: Result<Vec<u8>, Socks5Error>)
    ensures
        match r {
            Ok(b) => b@ == greeting(username@) && (username@.len() == 0 || encode_utf8(username@).len() <= 255
                && encode_utf8(password@).len() <= 255),
            Err(e) => e is CredentialsTooLong && username@.len() > 0 && (encode_utf8(username@).len() > 255
                || encode_utf8(password@).len() > 255),
        },
{
    let u = chars_of(username);
    if u.len() == 0 {
        let v: Vec<u8> = vec![5u8, 1, 0];
        assert(v@ =~= greeting(username@));
        return Ok(v);
    }
    if utf8_of(username).len() > 255 || utf8_of(password).len() > 255 {
        return Err(Socks5Error::CredentialsTooLong);
    }
    let v: Vec<u8> = vec![5u8, 2, 0, 2];
    assert(v@ =~= greeting(username@));
    Ok(v)
}

/// Whether the answer to the first message asks for name and password.
pub fn socks5_method(version: u8, method: u8) -> (r: Result<bool, Socks5Error>)
    ensures
        r == if version != 5 {
            Err::<bool, Socks5Error>(Socks5Error::Version(version))
        } else if method == 0 {
            Ok(false)
        } else if method == 2 {
            Ok(true)
        } else if method == 255 {
            Err(Socks5Error::NoMethod)
        } else {
            Err(Socks5Error::Method(method))
        },
{
    if version != 5 {
        Err(Socks5Error::Version(version))
    } else if method == 0 {
        Ok(false)
    } else if method == 2 {
        Ok(true)
    } else if method == 255 {
        Err(Socks5Error::NoMethod)
    } else {
        Err(Socks5Error::Method(method))
    }
}

/// Name and password.
pub open spec fn credentials(username: Seq<char>, password: Seq<char>) -> Seq<u8> {
    let u = encode_utf8(username);
    let p = encode_utf8(password);
    seq![1u8, (u.len() % 256) as u8] + u + seq![(p.len() % 256) as u8] + p
}

pub fn socks5_credentials(username: &str, password: &str) -> (r: Vec<u8>)
    ensures
        r@ == credentials(username@, password@),
{
    let u = utf8_of(username);
    let p = utf8_of(password);
    let mut v: Vec<u8> = Vec::new();
    v.push(1);
    v.push((u.len() % 256) as u8);
    put_slice(&mut v, &u);
    v.push((p.len() % 256) as u8);
    put_slice(&mut v, &p);
    assert(v@ =~= credentials(username@, password@));
    v
}

/// Whether the proxy took name and password.
pub fn socks5_accepted(status: u8) -> (r: Result<(), Socks5Error>)
    ensures
        r == if status == 0 {
            Ok::<(), Socks5Error>(())
        } else {
            Err(Socks5Error::Rejected(status))
        },
{
    if status == 0 {
        Ok(())
    } else {
        Err(Socks5Error::Rejected(status))
    }
}

pub open spec fn address_bytes(ip: IpAddr) -> Seq<u8> {
    match ip {
        IpAddr::V4(v) => seq![1u8] + be32(v as int),
        IpAddr::V6(v) => seq![4u8] + be64(v as int / 0x1_0000_0000_0000_0000) + be64(
            v as int % 0x1_0000_0000_0000_0000,
        ),
    }
}

/// A host and a port: an address, or the name with its length in one byte.
pub open spec fn target_bytes(host: Seq<char>, port: int) -> Seq<u8> {
    (match read_ip(host) {
        Some(ip) => address_bytes(ip),
        None => seq![3u8, (encode_utf8(host).len() % 256) as u8] + encode_utf8(host),
    }) + be16(port)
}

fn put_address(out: &mut Vec<u8>, ip: IpAddr)
    ensures
        final(out)@ == old(out)@ + address_bytes(ip),
{
    match ip {
        IpAddr::V4(v) => {
            out.push(1);
            put_u32(out, v);
        },
        IpAddr::V6(v) => {
            out.push(4);
            put_u64(out, (v / 0x1_0000_0000_0000_0000) as u64);
            put_u64(out, (v % 0x1_0000_0000_0000_0000) as u64);
        },
    }
    assert(out@ =~= old(out)@ + address_bytes(ip));
}

fn put_target(out: &mut Vec<u8>, host: &str, port: u16)
    ensures
        final(out)@ == old(out)@ + target_bytes(host@, port as int),
{
    match ip_of(host) {
        Some(ip) => put_address(out, ip),
        None => {
            let h = utf8_of(host);
            out.push(3);
            out.push((h.len() % 256) as u8);
            put_slice(out, &h);
        },
    }
    put_u16(out, port);
    assert(out@ =~= old(out)@ + target_bytes(host@, port as int));
}

/// The request for a TCP connection to a target.
pub fn socks5_connect(target: &str) -> (r: Result<Vec<u8>, Socks5Error>)
    ensures
        match r {
            Ok(b) => host_port(target@) matches Some((h, p)) && b@ == seq![5u8, 1, 0] + target_bytes(h, p),
            Err(e) => host_port(target@) is None && e is InvalidTarget,
        },
{
    match split_host_port(target) {
        Some((host, port)) => {
            let mut v: Vec<u8> = vec![5u8, 1, 0];
            put_target(&mut v, &host, port);
            assert(v@ =~= seq![5u8, 1, 0] + target_bytes(host@, port as int));
            Ok(v)
        },
        None => Err(Socks5Error::InvalidTarget),
    }
}

/// The request for a UDP association from a local address.
pub fn socks5_associate(local: SocketAddr) -> (r: Vec<u8>)
    ensures
        r@ == seq![5u8, 3, 0] + address_bytes(local.ip) + be16(local.port as int),
{
    let mut v: Vec<u8> = vec![5u8, 3, 0];
    put_address(&mut v, local.ip);
    put_u16(&mut v, local.port);
    assert(v@ =~= seq![5u8, 3, 0] + address_bytes(local.ip) + be16(local.port as int));
    v
}

/// What follows the first four bytes of an answer.
#[derive(Clone, Copy, Debug, PartialEq, Eq, Structural)]
pub enum ReplyAddress {
    V4,
    V6,
    /// A name, with its length in the next byte.
    Name,
    /// An address of unknown type.
    Unknown(u8),
}

/// What follows the first four bytes of an answer; an error where the request
/// was refused.
pub fn socks5_reply(status: u8, kind: u8) -> (r: Result<ReplyAddress, Socks5Error>)
    ensures
        r == if status != 0 {
            Err::<ReplyAddress, Socks5Error>(Socks5Error::Refused(status))
        } else if kind == 1 {
            Ok(ReplyAddress::V4)
        } else if kind == 4 {
            Ok(ReplyAddress::V6)
        } else if kind == 3 {
            Ok(ReplyAddress::Name)
        } else {
            Ok(ReplyAddress::Unknown(kind))
        },
{
    if status != 0 {
        Err(Socks5Error::Refused(status))
    } else if kind == 1 {
        Ok(ReplyAddress::V4)
    } else if kind == 4 {
        Ok(ReplyAddress::V6)
    } else if kind == 3 {
        Ok(ReplyAddress::Name)
    } else {
        Ok(ReplyAddress::Unknown(kind))
    }
}

/// How many bytes of address and port are to be skipped after the answer to a
/// connection request; `name_len` is the length of a name.
pub fn socks5_skip(a: ReplyAddress, name_len: u8) -> (r: usize)
    ensures
        r == match a {
            ReplyAddress::V4 => 6,
            ReplyAddress::V6 => 18,
            ReplyAddress::Name => if name_len > 0 {
                name_len + 2
            } else {
                0
            },
            ReplyAddress::Unknown(_) => 0,
        },
{
    match a {
        ReplyAddress::V4 => 6,
        ReplyAddress::V6 => 18,
        ReplyAddress::Name => if name_len > 0 {
            name_len as usize + 2
        } else {
            0
        },
        ReplyAddress::Unknown(_) => 0,
    }
}

// ── Datagrams ────────────────────────────────────────────────────────────────

/// A datagram for a target, as a proxy takes it.
pub fn socks5_datagram(target: &str, data: &[u8]) -> (r: Result<Vec<u8>, Socks5Error>)
    ensures
        match r {
            Ok(b) => host_port(target@) matches Some((h, p)) && b@ == seq![0u8, 0, 0] + target_bytes(h, p) + data@,
            Err(e) => host_port(target@) is None && e is InvalidTarget,
        },
{
    match split_host_port(target) {
        Some((host, port)) => {
            let mut v: Vec<u8> = vec![0u8, 0, 0];
            put_target(&mut v, &host, port);
            put_slice(&mut v, data);
            assert(v@ =~= seq![0u8, 0, 0] + target_bytes(host@, port as int) + data@);
            Ok(v)
        },
        None => Err(Socks5Error::InvalidTarget),
    }
}

pub open spec fn at_port(host: Seq<char>, port: int) -> Seq<char> {
    host + seq![':'] + decimal(port as nat)
}

/// Who a datagram from a proxy is from, and where its data begins. Nothing where
/// it is short, a fragment or malformed.
pub open spec fn datagram_from(b: Seq<u8>) -> Option<(Seq<char>, int)> {
    if b.len() < 10 || b[0] != 0 || b[1] != 0 || b[2] != 0 {
        None
    } else if b[3] == 1 {
        Some((at_port(show_ip(IpAddr::V4(u32_at(b, 4) as u32)), u16_at(b, 8)), 10))
    } else if b[3] == 4 && b.len() >= 22 {
        Some(
            (
                at_port(
                    show_ip(IpAddr::V6((u64_at(b, 4) * 0x1_0000_0000_0000_0000 + u64_at(b, 12)) as u128)),
                    u16_at(b, 20),
                ),
                22,
            ),
        )
    } else if b[3] == 3 && b.len() >= 5 + b[4] + 2 {
        Some((at_port(utf8_lossy(b.subrange(5, 5 + b[4])), u16_at(b, 5 + b[4])), 5 + b[4] + 2))
    } else {
        None
    }
}

fn with_port(host: &str, port: u16) -> (r: String)
    ensures
        r@ == at_port(host@, port as int),
{
    let mut v = chars_of(host);
    v.push(':');
    put_decimal(&mut v, port as u64);
    assert(v@ =~= at_port(host@, port as int));
    string_of(&v)
}

/// Who a datagram from a proxy is from, and its data.
pub fn socks5_parse_datagram(b: &[u8]) -> (r: Option<(String, Vec<u8>)>)
    ensures
        match r {
            Some((from, data)) => datagram_from(b@) matches Some((f, at)) && from@ == f && data@ == b@.subrange(
                at,
                b@.len() as int,
            ),
            None => datagram_from(b@) is None,
        },
{
    let n: usize = b.len();
    if n < 10 || b[0] != 0 || b[1] != 0 || b[2] != 0 {
        return None;
    }
    if b[3] == 1 {
        let ip = IpAddr::V4(get_u32(b, 4)).text();
        return Some((with_port(&ip, get_u16(b, 8)), copy_range(b, 10, n)));
    }
    if b[3] == 4 && n >= 22 {
        let hi: u64 = get_u64(b, 4);
        let lo: u64 = get_u64(b, 12);
        let v: u128 = hi as u128 * 0x1_0000_0000_0000_0000 + lo as u128;
        let ip = IpAddr::V6(v).text();
        return Some((with_port(&ip, get_u16(b, 20)), copy_range(b, 22, n)));
    }
    if b[3] == 3 {
        let len: usize = b[4] as usize;
        if n >= 5 + len + 2 {
            let name = lossy_text(slice_subrange(b, 5, 5 + len));
            return Some((with_port(&name, get_u16(b, 5 + len)), copy_range(b, 5 + len + 2, n)));
        }
    }
    None
}

// ── HTTP CONNECT ─────────────────────────────────────────────────────────────

/// The request for a tunnel to a target.
pub fn http_connect(target: &str) -> (r: String)
    ensures
        r@ == "CONNECT "@ + target@ + " HTTP/1.1\r\nHost: "@ + target@ + "\r\n\r\n"@,
{
    let mut v = chars_of("CONNECT ");
    put_str(&mut v, target);
    put_str(&mut v, " HTTP/1.1\r\nHost: ");
    put_str(&mut v, target);
    put_str(&mut v, "\r\n\r\n");
    assert(v@ =~= "CONNECT "@ + target@ + " HTTP/1.1\r\nHost: "@ + target@ + "\r\n\r\n"@);
    string_of(&v)
}

/// Whether the text of an answer grants the tunnel.
pub open spec fn grants(text: Seq<char>) -> bool {
    starts_with(text, "HTTP/1.1 200"@) || starts_with(text, "HTTP/1.0 200"@)
}

/// Whether the answer to the request grants the tunnel.
pub fn http_granted(response: &[u8]) -> (r: bool)
    ensures
        r == grants(utf8_lossy(response@)),
{
    is_grant(&lossy_text(response))
}

/// Whether the text of an answer grants the tunnel.
pub fn is_grant(text: &str) -> (r: bool)
    ensures
        r == grants(text@),
{
    let t = chars_of(text);
    begins_str(&t, "HTTP/1.1 200") || begins_str(&t, "HTTP/1.0 200")
}

// ── Laws ─────────────────────────────────────────────────────────────────────

/// A datagram from a proxy gives back the data that it was made with, and names
/// the address that it was made for.
pub proof fn datagrams_round_trip(ip: IpAddr, port: u16, data: Seq<u8>)
    ensures
        ({
            let b = seq![0u8, 0, 0] + address_bytes(ip) + be16(port as int) + data;
            datagram_from(b) matches Some((from, at)) && from == at_port(show_ip(ip), port as int) && b.subrange(
                at,
                b.len() as int,
            ) == data
        }),
{
    let b = seq![0u8, 0, 0] + address_bytes(ip) + be16(port as int) + data;
    match ip {
        IpAddr::V4(v) => {
            assert(b.subrange(4, 8) =~= be32(v as int));
            assert(b.subrange(8, 10) =~= be16(port as int));
            crate::bytes::lemma_be32(b, 4, v as int);
            crate::bytes::lemma_be16(b, 8, port as int);
            assert(b.subrange(10, b.len() as int) =~= data);
        },
        IpAddr::V6(v) => {
            let hi = v as int / 0x1_0000_0000_0000_0000;
            let lo = v as int % 0x1_0000_0000_0000_0000;
            assert(b.subrange(4, 12) =~= be64(hi));
            assert(b.subrange(12, 20) =~= be64(lo));
            assert(b.subrange(20, 22) =~= be16(port as int));
            crate::bytes::lemma_be64(b, 4, hi);
            crate::bytes::lemma_be64(b, 12, lo);
            crate::bytes::lemma_be16(b, 20, port as int);
            assert(b.subrange(22, b.len() as int) =~= data);
        },
    }
}

/// A client offers to come without a name, and with one where it has one.
pub proof fn methods_are_offered(username: Seq<char>)
    ensures
        username.len() == 0 ==> greeting(username) == seq![5u8, 1u8, 0u8],
        username.len() > 0 ==> greeting(username) == seq![5u8, 2u8, 0u8, 2u8],
{
}

/// Name and password are sent each behind its length, so that the proxy reads them back.
pub proof fn credentials_can_be_read(username: Seq<char>, password: Seq<char>)
    requires
        encode_utf8(username).len() <= 255,
        encode_utf8(password).len() <= 255,
    ensures
        ({
            let b = credentials(username, password);
            let n = b[1] as int;
            &&& b[0] == 1
            &&& b.subrange(2, 2 + n) == encode_utf8(username)
            &&& b[2 + n] == encode_utf8(password).len()
            &&& b.subrange(3 + n, b.len() as int) == encode_utf8(password)
        }),
{
    let u = encode_utf8(username);
    let p = encode_utf8(password);
    let b = credentials(username, password);
    assert(b[1] == u.len());
    assert(b.subrange(2, 2int + u.len()) =~= u);
    assert(b.subrange(3int + u.len(), b.len() as int) =~= p);
}

/// A target is sent as its address behind the number of its kind, or as its name behind the
/// number three and its length, and then the port.
pub proof fn targets_can_be_read(host: Seq<char>, port: u16)
    ensures
        ({
            let b = target_bytes(host, port as int);
            &&& read_ip(host) matches Some(IpAddr::V4(v)) ==> b.len() == 7 && b[0] == 1 && u32_at(b, 1) == v && u16_at(b, 5)
                == port
            &&& read_ip(host) matches Some(IpAddr::V6(v)) ==> b.len() == 19 && b[0] == 4 && u64_at(b, 1)
                * 0x1_0000_0000_0000_0000 + u64_at(b, 9) == v && u16_at(b, 17) == port
            &&& read_ip(host) is None && encode_utf8(host).len() <= 255 ==> b[0] == 3 && b[1] == encode_utf8(host).len()
                && b.subrange(2, 2 + b[1]) == encode_utf8(host) && b.len() == 4 + b[1] && u16_at(b, 2 + b[1]) == port
        }),
{
    broadcast use crate::bytes::group_big_endian;

    let b = target_bytes(host, port as int);
    match read_ip(host) {
        Some(IpAddr::V4(v)) => {
            assert(b.subrange(1, 5) =~= be32(v as int));
            assert(b.subrange(5, 7) =~= be16(port as int));
            crate::bytes::lemma_be32(b, 1, v as int);
            crate::bytes::lemma_be16(b, 5, port as int);
        },
        Some(IpAddr::V6(v)) => {
            let high = v as int / 0x1_0000_0000_0000_0000;
            let low = v as int % 0x1_0000_0000_0000_0000;
            assert(b.subrange(1, 9) =~= be64(high));
            assert(b.subrange(9, 17) =~= be64(low));
            assert(b.subrange(17, 19) =~= be16(port as int));
            crate::bytes::lemma_be64(b, 1, high);
            crate::bytes::lemma_be64(b, 9, low);
            crate::bytes::lemma_be16(b, 17, port as int);
        },
        None => {
            let n = encode_utf8(host).len() as int;
            if n <= 255 {
                assert(b.subrange(2, 2 + n) =~= encode_utf8(host));
                assert(b.subrange(2 + n, 4 + n) =~= be16(port as int));
                crate::bytes::lemma_be16(b, 2 + n, port as int);
            }
        },
    }
}

/// A proxy grants a connection with the status 200, of either version, and with no other.
pub proof fn proxies_grant_with_their_status(text: Seq<char>, rest: Seq<char>)
    ensures
        grants("HTTP/1.1 200"@ + rest),
        grants("HTTP/1.0 200"@ + rest),
        grants(text) ==> text.len() >= 12 && text[9] == '2' && text[10] == '0' && text[11] == '0',
{
    reveal_strlit("HTTP/1.1 200");
    reveal_strlit("HTTP/1.0 200");
    let a = "HTTP/1.1 200"@ + rest;
    assert(a.subrange(0, 12) =~= "HTTP/1.1 200"@);
    let b = "HTTP/1.0 200"@ + rest;
    assert(b.subrange(0, 12) =~= "HTTP/1.0 200"@);
    if grants(text) {
        let t = text.subrange(0, 12);
        assert(t[9] == text[9] && t[10] == text[10] && t[11] == text[11]);
    }
}

/// A datagram through a proxy says where it came from, and what follows is its data.
pub proof fn datagrams_say_where_they_come_from(b: Seq<u8>)
    ensures
        b.len() >= 10 && b[0] == 0 && b[1] == 0 && b[2] == 0 && b[3] == 1 ==> datagram_from(b) == Some(
            (show_ip(IpAddr::V4(u32_at(b, 4) as u32)) + seq![':'] + decimal(u16_at(b, 8) as nat), 10int),
        ),
        b.len() >= 22 && b[0] == 0 && b[1] == 0 && b[2] == 0 && b[3] == 4 ==> (datagram_from(b) matches Some((_, n)) && n == 22),
        b.len() >= 10 && b[0] == 0 && b[1] == 0 && b[2] == 0 && b[3] == 3 && b.len() >= 7 + b[4] ==> datagram_from(b) == Some(
            (utf8_lossy(b.subrange(5, 5 + b[4])) + seq![':'] + decimal(u16_at(b, 5 + b[4]) as nat), 7 + b[4]),
        ),
        b.len() < 10 || b[2] != 0 ==> datagram_from(b) is None,
{
}

} // verus!
