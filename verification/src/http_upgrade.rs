//! The HTTP/1.1 upgrade that carries framed packets through a web server.
//!
//! Only the handshake has the shape of a WebSocket; after it both ends exchange
//! length-prefixed packets, which the web server tunnels as they are.

use vstd::prelude::*;
use vstd::utf8::encode_utf8;

use crate::crypto::digest::{sha1, sha1_of};
use crate::encoding::{base64_bytes, base64_of, base64_text};
use crate::framing::padding::random_bytes;
use crate::text::{chars_of, put_str, string_of, trim, trimmed, utf8_of};

verus! {

/// The longest head of a request or a response.
pub const MAX_HEAD_BYTES: usize = 8192;

/// A fresh key of the handshake: sixteen bytes in base 64.
pub fn generate_ws_key() -> (r: String)
    ensures
        base64_bytes(r@) matches Some(b) && b.len() == 16,
{
    base64_of(&random_bytes(16))
}

/// What the server answers to a key.
pub open spec fn accept_key(key: Seq<char>) -> Seq<char> {
    base64_text(sha1(encode_utf8(trim(key)) + encode_utf8("258EAFA5-E914-47DA-95CA-C5AB0DC85B11"@)))
}

/// What the server answers to a key.
pub fn ws_accept_key(key: &str) -> (r: String)
    ensures
        r@ == accept_key(key@),
{
    let c = chars_of(key);
    let mut m = utf8_of(&string_of(trimmed(&c)));
    let mut guid = utf8_of("258EAFA5-E914-47DA-95CA-C5AB0DC85B11");
    m.append(&mut guid);
    base64_of(&sha1_of(&m))
}

pub open spec fn upgrade_request(path: Seq<char>, host: Seq<char>, key: Seq<char>) -> Seq<char> {
    "GET "@ + path + " HTTP/1.1\r\nHost: "@ + host
        + "\r\nUpgrade: websocket\r\nConnection: Upgrade\r\nSec-WebSocket-Key: "@ + key
        + "\r\nSec-WebSocket-Version: 13\r\n\r\n"@
}

pub fn build_upgrade_request(path: &str, host: &str, key: &str) -> (r: Vec<u8>)
    ensures
        r@ == encode_utf8(upgrade_request(path@, host@, key@)),
{
    let mut v = chars_of("GET ");
    put_str(&mut v, path);
    put_str(&mut v, " HTTP/1.1\r\nHost: ");
    put_str(&mut v, host);
    put_str(&mut v, "\r\nUpgrade: websocket\r\nConnection: Upgrade\r\nSec-WebSocket-Key: ");
    put_str(&mut v, key);
    put_str(&mut v, "\r\nSec-WebSocket-Version: 13\r\n\r\n");
    utf8_of(&string_of(&v))
}

pub open spec fn upgrade_response(accept: Seq<char>) -> Seq<char> {
    "HTTP/1.1 101 Switching Protocols\r\nUpgrade: websocket\r\nConnection: Upgrade\r\nSec-WebSocket-Accept: "@ + accept
        + "\r\n\r\n"@
}

pub fn build_upgrade_response(accept: &str) -> (r: Vec<u8>)
    ensures
        r@ == encode_utf8(upgrade_response(accept@)),
{
    let mut v = chars_of(
        "HTTP/1.1 101 Switching Protocols\r\nUpgrade: websocket\r\nConnection: Upgrade\r\nSec-WebSocket-Accept: ",
    );
    put_str(&mut v, accept);
    put_str(&mut v, "\r\n\r\n");
    utf8_of(&string_of(&v))
}

/// Whether an empty line ends at `i + 4`.
pub open spec fn blank_line_at(b: Seq<u8>, i: int) -> bool {
    0 <= i && i + 4 <= b.len() && b[i] == 13 && b[i + 1] == 10 && b[i + 2] == 13 && b[i + 3] == 10
}

/// The length of a head up to and with its empty line, once that is there.
pub open spec fn head_end(b: Seq<u8>) -> Option<int> {
    if exists|i: int| blank_line_at(b, i) {
        Some(first_blank_line(b, 0) + 4)
    } else {
        None
    }
}

/// The first place from `i` on where an empty line stands.
pub open spec fn first_blank_line(b: Seq<u8>, i: int) -> int
    decreases b.len() - i,
{
    if i >= b.len() || blank_line_at(b, i) {
        i
    } else {
        first_blank_line(b, i + 1)
    }
}

/// The length of a head up to and with its empty line, once that is there.
pub fn find_head_end(buf: &[u8]) -> (r: Option<usize>)
    ensures
        match r {
            Some(n) => head_end(buf@) == Some(n as int) && 4 <= n <= buf@.len(),
            None => head_end(buf@) is None,
        },
{
    let n: usize = buf.len();
    let mut i: usize = 0;
    while i < n
        invariant
            n == buf@.len(),
            i <= n,
            forall|k: int| 0 <= k < i ==> !#[trigger] blank_line_at(buf@, k),
            first_blank_line(buf@, 0) == first_blank_line(buf@, i as int),
        decreases n - i,
    {
        if n - i >= 4 && buf[i] == 13 && buf[i + 1] == 10 && buf[i + 2] == 13 && buf[i + 3] == 10 {
            assert(blank_line_at(buf@, i as int));
            return Some(i + 4);
        }
        assert(!blank_line_at(buf@, i as int));
        i += 1;
    }
    assert forall|k: int| !blank_line_at(buf@, k) by {
        if 0 <= k < n {
            assert(!blank_line_at(buf@, k));
        }
    }
    None
}

proof fn lemma_first_blank_line(b: Seq<u8>, i: int, k: int)
    requires
        0 <= i <= k,
        blank_line_at(b, k),
        forall|j: int| i <= j < k ==> !blank_line_at(b, j),
    ensures
        first_blank_line(b, i) == k,
    decreases k - i,
{
    if i < k {
        lemma_first_blank_line(b, i + 1, k);
    }
}

/// The head of a request ends with its first blank line; while there is none, it has no end.
pub proof fn heads_end_with_a_blank_line(b: Seq<u8>, k: int)
    ensures
        0 <= k && k + 4 <= b.len() && b.subrange(k, k + 4) == seq![13u8, 10u8, 13u8, 10u8] && (forall|j: int|
            0 <= j < k ==> !(#[trigger] blank_line_at(b, j))) ==> head_end(b) == Some(k + 4),
        (forall|j: int| !(#[trigger] blank_line_at(b, j))) ==> head_end(b) is None,
{
    if 0 <= k && k + 4 <= b.len() && b.subrange(k, k + 4) == seq![13u8, 10u8, 13u8, 10u8] && (forall|j: int|
        0 <= j < k ==> !(#[trigger] blank_line_at(b, j))) {
        let s = b.subrange(k, k + 4);
        assert(s[0] == b[k] && s[1] == b[k + 1] && s[2] == b[k + 2] && s[3] == b[k + 3]);
        assert(blank_line_at(b, k));
        lemma_first_blank_line(b, 0, k);
    }
}

/// The server answers the key of an upgrade with the digest of it and of the constant that the
/// protocol sets.
pub proof fn keys_are_answered_by_digest(key: Seq<char>)
    requires
        trim(key) == key,
    ensures
        accept_key(key) == base64_text(
            sha1(encode_utf8(key) + encode_utf8("258EAFA5-E914-47DA-95CA-C5AB0DC85B11"@)),
        ),
{
}

/// A request for an upgrade is one for the path at the host, with the key, and ends with a blank
/// line.
pub proof fn upgrades_are_asked_for(path: Seq<char>, host: Seq<char>, key: Seq<char>)
    ensures
        crate::text::starts_with(upgrade_request(path, host, key), "GET "@ + path + " HTTP/1.1\r\nHost: "@ + host),
        crate::text::ends_with(
            upgrade_request(path, host, key),
            "Sec-WebSocket-Key: "@ + key + "\r\nSec-WebSocket-Version: 13\r\n\r\n"@,
        ),
{
    reveal_strlit("\r\nUpgrade: websocket\r\nConnection: Upgrade\r\nSec-WebSocket-Key: ");
    reveal_strlit("Sec-WebSocket-Key: ");
    let s = upgrade_request(path, host, key);
    let a = "GET "@ + path + " HTTP/1.1\r\nHost: "@ + host;
    assert(s.subrange(0, a.len() as int) =~= a);
    let e = "Sec-WebSocket-Key: "@ + key + "\r\nSec-WebSocket-Version: 13\r\n\r\n"@;
    assert(s.subrange(s.len() - e.len(), s.len() as int) =~= e);
}

} // verus!
