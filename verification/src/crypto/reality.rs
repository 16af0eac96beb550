//! A handshake that looks like TLS 1.3: the client's hello carries its public key
//! and, in place of a session id, an authenticated payload.

use vstd::prelude::*;
use vstd::slice::slice_subrange;
use vstd::utf8::encode_utf8;
use x25519_dalek::{PublicKey, StaticSecret};

use crate::bytes::{
    array32, array8, be16, be64, get_u16, get_u64, lemma_be16, lemma_be64, put_slice, put_u16, put_u64, u16_at, u64_at,
};
use crate::crypto::aead::{aead_open, aead_seal, open, seal};
use crate::crypto::digest::{hkdf_of, hkdf_sha256_64};
use crate::framing::padding::random_bytes;
use crate::text::{text_from, text_of, utf8_of};
use crate::time::unix_secs;

verus! {

broadcast use crate::bytes::group_big_endian;

/// Records that the server sends in its part of the handshake; the client reads
/// and drops them.
pub const REALITY_SERVER_HANDSHAKE_RECORDS: usize = 5;

/// Seconds by which the clocks of both ends may differ.
pub const SESSION_DRIFT_SECS: u64 = 60;

/// The longest server's name that fits into a hello.
pub const MAX_NAME_BYTES: usize = 65348;

// ── Keys ─────────────────────────────────────────────────────────────────────

/// The public key of a secret.
pub uninterp spec fn x25519_public(secret: Seq<u8>) -> Seq<u8>;

/// `x25519_dalek::PublicKey::from` a `StaticSecret`: a function of the secret's bytes
/// alone.
#[verifier::external_body]
fn public_of(secret: &[u8; 32]) -> (r: [u8; 32])
    ensures
        r@ == x25519_public(secret@),
{
    PublicKey::from(&StaticSecret::from(*secret)).to_bytes()
}

/// A fresh secret and its public key.
pub fn generate_x25519_keypair() -> (r: ([u8; 32], [u8; 32]))
    ensures
        r.1@ == x25519_public(r.0@),
{
    let b = random_bytes(32);
    let secret = array32(&b, 0);
    (secret, public_of(&secret))
}

/// The keys of a shared secret: one to authenticate, one for data.
pub open spec fn reality_keys(shared: Seq<u8>) -> (Seq<u8>, Seq<u8>) {
    let okm = hkdf_sha256_64(shared, encode_utf8("ostp-reality-v1"@));
    (okm.subrange(0, 32), okm.subrange(32, 64))
}

/// The keys of a shared secret: one to authenticate, one for data.
pub fn derive_keys(shared_secret: &[u8; 32]) -> (r: ([u8; 32], [u8; 32]))
    ensures
        (r.0@, r.1@) == reality_keys(shared_secret@),
{
    let okm = hkdf_of(shared_secret, &utf8_of("ostp-reality-v1"));
    (array32(&okm, 0), array32(&okm, 32))
}

// ── Session ids ──────────────────────────────────────────────────────────────

/// The nonce of every session id: the key is used for one connection.
pub open spec fn zero_nonce() -> Seq<u8> {
    Seq::new(12, |i: int| 0u8)
}

/// What a session id holds: an id and the time.
pub open spec fn session_payload(sid: Seq<u8>, ts: u64) -> Seq<u8> {
    sid + be64(ts as int)
}

/// The session id for an id and a time.
pub fn session_id_at(auth_key: &[u8; 32], sid: &[u8; 8], ts: u64) -> (r: [u8; 32])
    ensures
        aead_seal(auth_key@, zero_nonce(), Seq::empty(), session_payload(sid@, ts)) == Some(r@),
        aead_open(auth_key@, zero_nonce(), Seq::empty(), r@) == Some(session_payload(sid@, ts)),
{
    let mut p: Vec<u8> = Vec::new();
    put_slice(&mut p, sid);
    put_u64(&mut p, ts);
    assert(p@ =~= session_payload(sid@, ts));
    let nonce: [u8; 12] = [0; 12];
    assert(nonce@ =~= zero_nonce());
    let aad: [u8; 0] = [];
    assert(aad@ =~= Seq::<u8>::empty());
    match seal(auth_key, &nonce, &aad, &p) {
        Ok(c) => {
            let r = array32(&c, 0);
            assert(r@ =~= c@);
            r
        },
        Err(_) => {
            assert(false);
            [0; 32]
        },
    }
}

/// The session id for an id, now.
pub fn generate_session_id(auth_key: &[u8; 32], sid: &[u8; 8]) -> (r: [u8; 32])
    ensures
        exists|ts: u64| aead_open(auth_key@, zero_nonce(), Seq::empty(), r@) == Some(#[trigger] session_payload(sid@, ts)),
{
    let ts: u64 = unix_secs();
    let r = session_id_at(auth_key, sid, ts);
    assert(aead_open(auth_key@, zero_nonce(), Seq::empty(), r@) == Some(session_payload(sid@, ts)));
    r
}

/// A time that is not too far from now.
pub open spec fn timely(ts: u64, now: u64) -> bool {
    ts <= now + SESSION_DRIFT_SECS && ts + SESSION_DRIFT_SECS >= now
}

/// The id and the time of a session id that is authentic and timely.
pub open spec fn opened_session(auth_key: Seq<u8>, session_id: Seq<u8>, now: u64) -> Option<(Seq<u8>, u64)> {
    match aead_open(auth_key, zero_nonce(), Seq::empty(), session_id) {
        Some(p) => if p.len() == 16 && timely(u64_at(p, 8) as u64, now) {
            Some((p.subrange(0, 8), u64_at(p, 8) as u64))
        } else {
            None
        },
        None => None,
    }
}

/// The id and the time of a session id that is authentic, and timely at `now`.
pub fn verify_session_id_at(auth_key: &[u8; 32], session_id: &[u8; 32], now: u64) -> (r: Option<([u8; 8], u64)>)
    ensures
        match r {
            Some((sid, ts)) => opened_session(auth_key@, session_id@, now) == Some((sid@, ts)),
            None => opened_session(auth_key@, session_id@, now) is None,
        },
{
    let nonce: [u8; 12] = [0; 12];
    assert(nonce@ =~= zero_nonce());
    let aad: [u8; 0] = [];
    assert(aad@ =~= Seq::<u8>::empty());
    let p = match open(auth_key, &nonce, &aad, session_id) {
        Ok(p) => p,
        Err(_) => {
            return None;
        },
    };
    if p.len() != 16 {
        return None;
    }
    let ts: u64 = get_u64(&p, 8);
    if ts > now.saturating_add(SESSION_DRIFT_SECS) || ts < now.saturating_sub(SESSION_DRIFT_SECS) {
        return None;
    }
    Some((array8(&p, 0), ts))
}

/// The id and the time of a session id that is authentic and timely.
pub fn verify_session_id(auth_key: &[u8; 32], session_id: &[u8; 32]) -> (r: Option<([u8; 8], u64)>)
    ensures
        r matches Some((sid, ts)) ==> exists|now: u64|
            #[trigger] opened_session(auth_key@, session_id@, now) == Some((sid@, ts)),
        aead_open(auth_key@, zero_nonce(), Seq::empty(), session_id@) is None ==> r is None,
{
    let now: u64 = unix_secs();
    let r = verify_session_id_at(auth_key, session_id, now);
    assert(r matches Some((sid, ts)) ==> opened_session(auth_key@, session_id@, now) == Some((sid@, ts)));
    r
}

/// A session id is accepted while the clocks are close, with the id that was put
/// into it, and not otherwise.
pub proof fn session_ids_round_trip(auth_key: Seq<u8>, session_id: Seq<u8>, sid: Seq<u8>, ts: u64, now: u64)
    requires
        sid.len() == 8,
        aead_open(auth_key, zero_nonce(), Seq::empty(), session_id) == Some(session_payload(sid, ts)),
    ensures
        opened_session(auth_key, session_id, now) == if timely(ts, now) {
            Some((sid, ts))
        } else {
            None
        },
{
    let p = session_payload(sid, ts);
    assert(p.subrange(0, 8) =~= sid);
    assert(p.subrange(8, 16) =~= be64(ts as int));
    lemma_be64(p, 8, ts as int);
}

// ── The client's hello ───────────────────────────────────────────────────────

/// An extension: its type, its length and its data.
pub open spec fn extension(t: int, data: Seq<u8>) -> Seq<u8> {
    be16(t) + be16(data.len() as int % 65536) + data
}

/// The data of the extension with the server's name.
pub open spec fn name_data(sni: Seq<u8>) -> Seq<u8> {
    be16((sni.len() as int + 3) % 65536) + seq![0u8] + be16(sni.len() as int % 65536) + sni
}

/// The data of the extension with the client's key.
pub open spec fn share_data(public: Seq<u8>) -> Seq<u8> {
    be16(36) + be16(0x001d) + be16(32) + public
}

/// The data of the extension with the groups: X25519, P-256 and P-384.
pub open spec fn group_data() -> Seq<u8> {
    be16(6) + be16(0x001d) + be16(0x0017) + be16(0x0018)
}

/// The data of the extension with the versions: TLS 1.3 and TLS 1.2.
pub open spec fn version_data() -> Seq<u8> {
    seq![4u8] + be16(0x0304) + be16(0x0303)
}

/// The data of the extension with the protocols: `h2` and `http/1.1`.
pub open spec fn protocol_data() -> Seq<u8> {
    be16(12) + seq![2u8, 0x68, 0x32, 8, 0x68, 0x74, 0x74, 0x70, 0x2f, 0x31, 0x2e, 0x31]
}

/// The data of the extension with the signature algorithms.
pub open spec fn signature_data() -> Seq<u8> {
    be16(8) + be16(0x0403) + be16(0x0804) + be16(0x0401) + be16(0x0503)
}

/// The extensions of the hello.
pub open spec fn extensions(sni: Seq<u8>, public: Seq<u8>) -> Seq<u8> {
    extension(0x0000, name_data(sni)) + (extension(0x000a, group_data()) + (extension(0x0033, share_data(public)) + (
    extension(0x002b, version_data()) + (extension(0x0010, protocol_data()) + extension(0x000d, signature_data())))))
}

/// The front of the hello: version, random bytes, session id, ciphers, compression
/// and the length of the extensions.
pub open spec fn hello_front(session_id: Seq<u8>, random: Seq<u8>, exts: int) -> Seq<u8> {
    seq![3u8, 3u8] + random + seq![32u8] + session_id + seq![0u8, 6, 0x13, 1, 0x13, 3, 0x13, 2, 1, 0] + be16(exts % 65536)
}

/// The body of the hello.
pub open spec fn hello_body(sni: Seq<u8>, session_id: Seq<u8>, public: Seq<u8>, random: Seq<u8>) -> Seq<u8> {
    let exts = extensions(sni, public);
    hello_front(session_id, random, exts.len() as int) + exts
}

/// The three bytes of a length.
pub open spec fn be24(n: int) -> Seq<u8> {
    seq![(n / 65536 % 256) as u8, (n / 256 % 256) as u8, (n % 256) as u8]
}

/// The headers of the record and of the handshake message in it.
pub open spec fn hello_header(n: int) -> Seq<u8> {
    seq![0x16u8, 3, 1] + be16((n + 4) % 65536) + seq![1u8] + be24(n)
}

/// The record that changes the cipher, which middleboxes expect.
pub open spec fn change_cipher() -> Seq<u8> {
    seq![0x14u8, 3, 3, 0, 1, 1]
}

/// The hello as a record, and the record that changes the cipher.
pub open spec fn hello(sni: Seq<u8>, session_id: Seq<u8>, public: Seq<u8>, random: Seq<u8>) -> Seq<u8> {
    let body = hello_body(sni, session_id, public, random);
    hello_header(body.len() as int) + body + change_cipher()
}

fn put_extension(out: &mut Vec<u8>, t: u16, data: &[u8])
    ensures
        final(out)@ == old(out)@ + extension(t as int, data@),
{
    put_u16(out, t);
    put_u16(out, (data.len() % 65536) as u16);
    put_slice(out, data);
    assert(out@ =~= old(out)@ + extension(t as int, data@));
}

fn extension_bytes(sni: &[u8], public: &[u8; 32]) -> (r: Vec<u8>)
    ensures
        r@ == extensions(sni@, public@),
{
    let mut name: Vec<u8> = Vec::new();
    put_u16(&mut name, ((sni.len() % 65536 + 3) % 65536) as u16);
    name.push(0);
    put_u16(&mut name, (sni.len() % 65536) as u16);
    put_slice(&mut name, sni);
    assert((sni@.len() as int % 65536 + 3) % 65536 == (sni@.len() + 3) % 65536);
    assert(name@ =~= name_data(sni@));
    let groups: [u8; 8] = [0, 6, 0, 0x1d, 0, 0x17, 0, 0x18];
    assert(groups@ =~= group_data());
    let mut share: Vec<u8> = Vec::new();
    put_u16(&mut share, 36);
    put_u16(&mut share, 0x001d);
    put_u16(&mut share, 32);
    put_slice(&mut share, public);
    assert(share@ =~= share_data(public@));
    let versions: [u8; 5] = [4, 3, 4, 3, 3];
    assert(versions@ =~= version_data());
    let protocols: [u8; 14] = [0, 12, 2, 0x68, 0x32, 8, 0x68, 0x74, 0x74, 0x70, 0x2f, 0x31, 0x2e, 0x31];
    assert(protocols@ =~= protocol_data());
    let signatures: [u8; 10] = [0, 8, 4, 3, 8, 4, 4, 1, 5, 3];
    assert(signatures@ =~= signature_data());
    let mut out: Vec<u8> = Vec::new();
    put_extension(&mut out, 0x0000, &name);
    put_extension(&mut out, 0x000a, &groups);
    put_extension(&mut out, 0x0033, &share);
    put_extension(&mut out, 0x002b, &versions);
    put_extension(&mut out, 0x0010, &protocols);
    put_extension(&mut out, 0x000d, &signatures);
    assert(out@ =~= extensions(sni@, public@));
    out
}

fn front_bytes(session_id: &[u8; 32], random: &[u8; 32], exts: usize) -> (r: Vec<u8>)
    ensures
        r@ == hello_front(session_id@, random@, exts as int),
{
    let version: [u8; 2] = [3, 3];
    assert(version@ =~= seq![3u8, 3u8]);
    let suites: [u8; 10] = [0, 6, 0x13, 1, 0x13, 3, 0x13, 2, 1, 0];
    assert(suites@ =~= seq![0u8, 6, 0x13, 1, 0x13, 3, 0x13, 2, 1, 0]);
    let mut out: Vec<u8> = Vec::new();
    put_slice(&mut out, &version);
    put_slice(&mut out, random);
    out.push(32);
    assert(out@ =~= seq![3u8, 3u8] + random@ + seq![32u8]);
    put_slice(&mut out, session_id);
    put_slice(&mut out, &suites);
    put_u16(&mut out, (exts % 65536) as u16);
    out
}

fn header_bytes(n: usize) -> (r: Vec<u8>)
    ensures
        r@ == hello_header(n as int),
{
    let mut out: Vec<u8> = Vec::new();
    out.push(0x16);
    out.push(3);
    out.push(1);
    put_u16(&mut out, ((n % 65536 + 4) % 65536) as u16);
    assert((n as int % 65536 + 4) % 65536 == (n + 4) % 65536);
    out.push(1);
    out.push((n / 65536 % 256) as u8);
    out.push((n / 256 % 256) as u8);
    out.push((n % 256) as u8);
    assert(out@ =~= hello_header(n as int));
    out
}

/// The hello with given random bytes.
pub fn client_hello_with(sni: &str, session_id: &[u8; 32], public: &[u8; 32], random: &[u8; 32]) -> (r: Vec<u8>)
    ensures
        r@ == hello(encode_utf8(sni@), session_id@, public@, random@),
{
    let name = utf8_of(sni);
    let exts = extension_bytes(&name, public);
    let mut body = front_bytes(session_id, random, exts.len());
    put_slice(&mut body, &exts);
    let mut out = header_bytes(body.len());
    put_slice(&mut out, &body);
    let change: [u8; 6] = [0x14, 3, 3, 0, 1, 1];
    assert(change@ =~= change_cipher());
    put_slice(&mut out, &change);
    out
}

/// The hello, with fresh random bytes.
pub fn build_client_hello(sni: &str, session_id: &[u8; 32], public: &[u8; 32]) -> (r: Vec<u8>)
    ensures
        exists|random: Seq<u8>|
            random.len() == 32 && r@ == #[trigger] hello(encode_utf8(sni@), session_id@, public@, random),
{
    let b = random_bytes(32);
    let random = array32(&b, 0);
    let r = client_hello_with(sni, session_id, public, &random);
    assert(r@ == hello(encode_utf8(sni@), session_id@, public@, random@));
    r
}

/// What a hello says.
#[derive(Debug, Clone)]
pub struct ParsedClientHello {
    pub sni: String,
    pub session_id: [u8; 32],
    pub c_pub: [u8; 32],
}

/// The server's name, in the data of its extension.
pub open spec fn name_in(data: Seq<u8>) -> Option<Seq<char>> {
    if data.len() >= 5 && data[2] == 0 && data.len() - 5 >= u16_at(data, 3) {
        text_of(data.subrange(5, 5 + u16_at(data, 3)))
    } else {
        None
    }
}

/// The last X25519 key among key shares; the one so far where there is none.
pub open spec fn share_in(shares: Seq<u8>, so_far: Option<Seq<u8>>) -> Option<Seq<u8>>
    decreases shares.len(),
{
    if shares.len() < 4 || u16_at(shares, 2) < 0 || shares.len() - 4 < u16_at(shares, 2) {
        so_far
    } else {
        let n = u16_at(shares, 2);
        share_in(
            shares.subrange(4 + n, shares.len() as int),
            if u16_at(shares, 0) == 0x001d && n == 32 {
                Some(shares.subrange(4, 36))
            } else {
                so_far
            },
        )
    }
}

/// Name and key after an extension; nothing where it is cut off.
pub open spec fn after_extension(t: int, data: Seq<u8>, so_far: (Option<Seq<char>>, Option<Seq<u8>>)) -> Option<
    (Option<Seq<char>>, Option<Seq<u8>>),
> {
    if t != 0 && t != 0x0033 {
        Some(so_far)
    } else if data.len() < 2 {
        None
    } else if t == 0 {
        Some(
            (
                match name_in(data) {
                    Some(n) => Some(n),
                    None => so_far.0,
                },
                so_far.1,
            ),
        )
    } else {
        Some((so_far.0, share_in(data.subrange(2, data.len() as int), so_far.1)))
    }
}

/// Name and key among extensions.
pub open spec fn scan(exts: Seq<u8>, so_far: (Option<Seq<char>>, Option<Seq<u8>>)) -> Option<
    (Option<Seq<char>>, Option<Seq<u8>>),
>
    decreases exts.len(),
{
    if exts.len() < 4 || u16_at(exts, 2) < 0 || exts.len() - 4 < u16_at(exts, 2) {
        Some(so_far)
    } else {
        let n = u16_at(exts, 2);
        match after_extension(u16_at(exts, 0), exts.subrange(4, 4 + n), so_far) {
            Some(next) => scan(exts.subrange(4 + n, exts.len() as int), next),
            None => None,
        }
    }
}

/// The body of the hello in the record at the front.
pub open spec fn body_in(buf: Seq<u8>) -> Option<Seq<u8>> {
    if buf.len() < 9 || buf[0] != 0x16 {
        None
    } else {
        let rec = u16_at(buf, 3);
        let n = buf[6] * 65536 + buf[7] * 256 + buf[8];
        if buf.len() - 5 < rec || rec < 4 || buf[5] != 1 || rec - 4 < n {
            None
        } else {
            Some(buf.subrange(9, 9 + n))
        }
    }
}

/// What stands behind a list that begins with its length in two bytes.
pub open spec fn behind16(s: Seq<u8>) -> Option<Seq<u8>> {
    if s.len() < 2 || s.len() - 2 < u16_at(s, 0) {
        None
    } else {
        Some(s.subrange(2 + u16_at(s, 0), s.len() as int))
    }
}

/// What stands behind a list that begins with its length in one byte.
pub open spec fn behind8(s: Seq<u8>) -> Option<Seq<u8>> {
    if s.len() < 1 || s.len() - 1 < s[0] {
        None
    } else {
        Some(s.subrange(1 + s[0], s.len() as int))
    }
}

/// The extensions of a hello, behind its session id.
pub open spec fn extensions_in(rest: Seq<u8>) -> Option<Seq<u8>> {
    match behind16(rest) {
        None => None,
        Some(a) => match behind8(a) {
            None => None,
            Some(b) => if b.len() < 2 || b.len() - 2 < u16_at(b, 0) {
                None
            } else {
                Some(b.subrange(2, 2 + u16_at(b, 0)))
            },
        },
    }
}

/// What a hello says: the server's name, the session id and the client's key;
/// nothing where it is not whole, or lacks one of them.
pub open spec fn read_hello(buf: Seq<u8>) -> Option<(Seq<char>, Seq<u8>, Seq<u8>)> {
    match body_in(buf) {
        None => None,
        Some(body) => if body.len() < 67 || body[34] != 32 {
            None
        } else {
            match extensions_in(body.subrange(67, body.len() as int)) {
                None => None,
                Some(exts) => match scan(exts, (None, None)) {
                    Some((Some(sni), Some(key))) => Some((sni, body.subrange(35, 67), key)),
                    _ => None,
                },
            }
        },
    }
}

fn parse_shares(shares: &[u8], so_far: Option<[u8; 32]>) -> (r: Option<[u8; 32]>)
    ensures
        opt_key(r) == share_in(shares@, opt_key(so_far)),
{
    let len: usize = shares.len();
    let mut key = so_far;
    let mut i: usize = 0;
    assert(shares@.subrange(0, len as int) =~= shares@);
    loop
        invariant
            len == shares@.len(),
            i <= len,
            share_in(shares@, opt_key(so_far)) == share_in(shares@.subrange(i as int, len as int), opt_key(key)),
        decreases len - i,
    {
        let ghost rest = shares@.subrange(i as int, len as int);
        if len - i < 4 {
            return key;
        }
        let group: u16 = get_u16(shares, i);
        let n: usize = get_u16(shares, i + 2) as usize;
        assert(u16_at(rest, 0) == group && u16_at(rest, 2) == n);
        if len - i - 4 < n {
            return key;
        }
        if group == 0x001d && n == 32 {
            key = Some(array32(shares, i + 4));
            assert(rest.subrange(4, 36) =~= shares@.subrange(i + 4, i + 36));
        }
        assert(rest.subrange(4 + n, rest.len() as int) =~= shares@.subrange(i + 4 + n, len as int));
        i = i + 4 + n;
    }
}

pub open spec fn opt_key(k: Option<[u8; 32]>) -> Option<Seq<u8>> {
    match k {
        Some(k) => Some(k@),
        None => None,
    }
}

pub open spec fn opt_string(k: Option<String>) -> Option<Seq<char>> {
    match k {
        Some(k) => Some(k@),
        None => None,
    }
}

fn parse_name(data: &[u8]) -> (r: Option<String>)
    ensures
        opt_string(r) == name_in(data@),
{
    let len: usize = data.len();
    if len >= 5 && data[2] == 0 {
        let n: usize = get_u16(data, 3) as usize;
        if len - 5 >= n {
            return text_from(slice_subrange(data, 5, 5 + n));
        }
    }
    None
}

fn parse_extensions(exts: &[u8]) -> (r: Option<(Option<String>, Option<[u8; 32]>)>)
    ensures
        match r {
            Some((n, k)) => scan(exts@, (None, None)) == Some((opt_string(n), opt_key(k))),
            None => scan(exts@, (None, None)) is None,
        },
{
    let len: usize = exts.len();
    let mut name: Option<String> = None;
    let mut key: Option<[u8; 32]> = None;
    let mut i: usize = 0;
    assert(exts@.subrange(0, len as int) =~= exts@);
    loop
        invariant
            len == exts@.len(),
            i <= len,
            scan(exts@, (None, None)) == scan(exts@.subrange(i as int, len as int), (opt_string(name), opt_key(key))),
        decreases len - i,
    {
        let ghost rest = exts@.subrange(i as int, len as int);
        if len - i < 4 {
            return Some((name, key));
        }
        let t: u16 = get_u16(exts, i);
        let n: usize = get_u16(exts, i + 2) as usize;
        assert(u16_at(rest, 0) == t && u16_at(rest, 2) == n);
        if len - i - 4 < n {
            return Some((name, key));
        }
        let data = slice_subrange(exts, i + 4, i + 4 + n);
        assert(rest.subrange(4, 4 + n) =~= data@);
        assert(rest.subrange(4 + n, rest.len() as int) =~= exts@.subrange(i + 4 + n, len as int));
        if t == 0 || t == 0x0033 {
            if n < 2 {
                return None;
            }
            if t == 0 {
                if let Some(found) = parse_name(data) {
                    name = Some(found);
                }
            } else {
                key = parse_shares(slice_subrange(data, 2, n), key);
            }
        }
        i = i + 4 + n;
    }
}

fn find_extensions(rest: &[u8]) -> (r: Option<&[u8]>)
    ensures
        match r {
            Some(e) => extensions_in(rest@) == Some(e@),
            None => extensions_in(rest@) is None,
        },
{
    let len: usize = rest.len();
    if len < 2 {
        return None;
    }
    let ciphers: usize = get_u16(rest, 0) as usize;
    if len - 2 < ciphers {
        return None;
    }
    let a = slice_subrange(rest, 2 + ciphers, len);
    let n: usize = a.len();
    if n < 1 || n - 1 < a[0] as usize {
        return None;
    }
    let b = slice_subrange(a, 1 + a[0] as usize, n);
    let m: usize = b.len();
    if m < 2 {
        return None;
    }
    let exts: usize = get_u16(b, 0) as usize;
    if m - 2 < exts {
        return None;
    }
    Some(slice_subrange(b, 2, 2 + exts))
}

/// Reads a hello; nothing where it is not whole, or lacks name, session id or key.
pub fn parse_client_hello(buf: &[u8]) -> (r: Option<ParsedClientHello>)
    ensures
        match r {
            Some(h) => read_hello(buf@) == Some((h.sni@, h.session_id@, h.c_pub@)),
            None => read_hello(buf@) is None,
        },
{
    let len: usize = buf.len();
    if len < 9 || buf[0] != 0x16 {
        return None;
    }
    let rec: usize = get_u16(buf, 3) as usize;
    let n: usize = buf[6] as usize * 65536 + buf[7] as usize * 256 + buf[8] as usize;
    if len - 5 < rec || rec < 4 || buf[5] != 1 || rec - 4 < n {
        return None;
    }
    let body = slice_subrange(buf, 9, 9 + n);
    if n < 67 || body[34] != 32 {
        return None;
    }
    let exts = match find_extensions(slice_subrange(body, 67, n)) {
        Some(e) => e,
        None => {
            return None;
        },
    };
    match parse_extensions(exts) {
        Some((Some(sni), Some(c_pub))) => Some(ParsedClientHello { sni, session_id: array32(body, 35), c_pub }),
        _ => None,
    }
}

// ── Round trip ───────────────────────────────────────────────────────────────

proof fn lemma_scan_extension(t: int, data: Seq<u8>, rest: Seq<u8>, so_far: (Option<Seq<char>>, Option<Seq<u8>>))
    requires
        0 <= t < 65536,
        data.len() < 65536,
        after_extension(t, data, so_far) is Some,
    ensures
        scan(extension(t, data) + rest, so_far) == scan(rest, after_extension(t, data, so_far)->Some_0),
{
    let s = extension(t, data) + rest;
    let n = data.len() as int;
    assert(n % 65536 == n);
    assert(s.subrange(0, 2) =~= be16(t));
    assert(s.subrange(2, 4) =~= be16(n));
    lemma_be16(s, 0, t);
    lemma_be16(s, 2, n);
    assert(s.subrange(4, 4 + n) =~= data);
    assert(s.subrange(4 + n, s.len() as int) =~= rest);
}

proof fn lemma_share(public: Seq<u8>)
    requires
        public.len() == 32,
    ensures
        share_in(share_data(public).subrange(2, 38), None) == Some(public),
{
    let s = share_data(public).subrange(2, 38);
    assert(s =~= be16(0x001d) + be16(32) + public);
    assert(u16_at(s, 0) == 0x001d);
    assert(u16_at(s, 2) == 32);
    assert(s.subrange(4, 36) =~= public);
    let rest = s.subrange(36, 36);
    assert(share_in(rest, Some(public)) == Some(public));
}

proof fn lemma_name(sni: Seq<char>)
    requires
        encode_utf8(sni).len() <= MAX_NAME_BYTES,
    ensures
        name_in(name_data(encode_utf8(sni))) == Some(sni),
{
    let b = encode_utf8(sni);
    let d = name_data(b);
    let n = b.len() as int;
    assert(n % 65536 == n);
    assert(d[2] == 0);
    assert(d.subrange(3, 5) =~= be16(n));
    lemma_be16(d, 3, n);
    assert(d.subrange(5, 5 + n) =~= b);
    crate::text::lemma_text_of_encoded(sni);
}

proof fn lemma_scan_built(sni: Seq<char>, public: Seq<u8>)
    requires
        public.len() == 32,
        encode_utf8(sni).len() <= MAX_NAME_BYTES,
    ensures
        scan(extensions(encode_utf8(sni), public), (None, None)) == Some((Some(sni), Some(public))),
        extensions(encode_utf8(sni), public).len() == 104 + encode_utf8(sni).len(),
{
    let b = encode_utf8(sni);
    let e6 = extension(0x000d, signature_data());
    let e5 = extension(0x0010, protocol_data()) + e6;
    let e4 = extension(0x002b, version_data()) + e5;
    let e3 = extension(0x0033, share_data(public)) + e4;
    let e2 = extension(0x000a, group_data()) + e3;
    let none: (Option<Seq<char>>, Option<Seq<u8>>) = (None, None);
    lemma_name(sni);
    lemma_share(public);
    lemma_scan_extension(0x0000, name_data(b), e2, none);
    let named = (Some(sni), None::<Seq<u8>>);
    lemma_scan_extension(0x000a, group_data(), e3, named);
    lemma_scan_extension(0x0033, share_data(public), e4, named);
    let both = (Some(sni), Some(public));
    lemma_scan_extension(0x002b, version_data(), e5, both);
    lemma_scan_extension(0x0010, protocol_data(), e6, both);
    lemma_scan_extension(0x000d, signature_data(), Seq::empty(), both);
    assert(e6 + Seq::<u8>::empty() =~= e6);
    assert(scan(Seq::empty(), both) == Some(both));
}

proof fn lemma_front(session_id: Seq<u8>, random: Seq<u8>, exts: Seq<u8>)
    requires
        session_id.len() == 32,
        random.len() == 32,
        exts.len() < 65536,
    ensures
        ({
            let body = hello_front(session_id, random, exts.len() as int) + exts;
            &&& body.len() == 79 + exts.len()
            &&& body[34] == 32
            &&& body.subrange(35, 67) == session_id
            &&& extensions_in(body.subrange(67, body.len() as int)) == Some(exts)
        }),
{
    let m = exts.len() as int;
    let suites = seq![0u8, 6, 0x13, 1, 0x13, 3, 0x13, 2, 1, 0];
    let front = hello_front(session_id, random, m);
    let body = front + exts;
    assert(m % 65536 == m);
    assert(front.len() == 79);
    assert(front[34] == 32);
    assert(body.subrange(35, 67) =~= session_id);
    let rest = body.subrange(67, body.len() as int);
    assert(rest =~= suites + be16(m) + exts);
    assert(rest[0] == 0 && rest[1] == 6);
    assert(u16_at(rest, 0) == 6);
    let a = rest.subrange(8, rest.len() as int);
    assert(behind16(rest) == Some(a));
    assert(a[0] == 1);
    let c = a.subrange(2, a.len() as int);
    assert(behind8(a) == Some(c));
    assert(c =~= be16(m) + exts);
    assert(c.subrange(0, 2) =~= be16(m));
    lemma_be16(c, 0, m);
    assert(c.subrange(2, 2 + m) =~= exts);
}

proof fn lemma_record(body: Seq<u8>)
    requires
        body.len() < 65532,
    ensures
        body_in(hello_header(body.len() as int) + body + change_cipher()) == Some(body),
{
    let n = body.len() as int;
    let head = hello_header(n);
    let h = head + body + change_cipher();
    assert((n + 4) % 65536 == n + 4);
    assert(head.len() == 9);
    assert(h.subrange(3, 5) =~= be16(n + 4));
    lemma_be16(h, 3, n + 4);
    assert(h[0] == 0x16);
    assert(h[5] == 1);
    assert(h[6] == (n / 65536 % 256) as u8);
    assert(h[7] == (n / 256 % 256) as u8);
    assert(h[8] == (n % 256) as u8);
    assert(h[6] * 65536 + h[7] * 256 + h[8] == n);
    assert(h.subrange(9, 9 + n) =~= body);
}

/// A hello that was built is read as what was put into it, whatever the random
/// bytes: the server's name, the session id and the client's key. A name longer than
/// this does not leave room for the rest of the record.
pub proof fn hellos_round_trip(sni: Seq<char>, session_id: Seq<u8>, public: Seq<u8>, random: Seq<u8>)
    requires
        session_id.len() == 32,
        public.len() == 32,
        random.len() == 32,
        encode_utf8(sni).len() <= MAX_NAME_BYTES,
    ensures
        read_hello(hello(encode_utf8(sni), session_id, public, random)) == Some((sni, session_id, public)),
{
    let b = encode_utf8(sni);
    lemma_scan_built(sni, public);
    lemma_front(session_id, random, extensions(b, public));
    lemma_record(hello_body(b, session_id, public, random));
}

/// A session that was announced within a minute of now is taken, and any other is not.
pub proof fn sessions_are_announced_in_time(auth_key: Seq<u8>, session_id: Seq<u8>, p: Seq<u8>, now: u64)
    requires
        aead_open(auth_key, Seq::new(12, |i: int| 0u8), Seq::empty(), session_id) == Some(p),
    ensures
        p.len() != 16 ==> opened_session(auth_key, session_id, now) is None,
        p.len() == 16 && -60 <= u64_at(p, 8) - now <= 60 ==> opened_session(auth_key, session_id, now) == Some(
            (p.take(8), u64_at(p, 8) as u64),
        ),
        p.len() == 16 && !(-60 <= u64_at(p, 8) - now <= 60) ==> opened_session(auth_key, session_id, now) is None,
{
    broadcast use crate::bytes::group_big_endian;

    assert(zero_nonce() =~= Seq::new(12, |i: int| 0u8));
    if p.len() == 16 {
        assert(p.subrange(0, 8) =~= p.take(8));
    }
}

/// A session whose announcement does not open is not taken.
pub proof fn sealed_sessions_stay_closed(auth_key: Seq<u8>, session_id: Seq<u8>, now: u64)
    requires
        aead_open(auth_key, Seq::new(12, |i: int| 0u8), Seq::empty(), session_id) is None,
    ensures
        opened_session(auth_key, session_id, now) is None,
{
    assert(zero_nonce() =~= Seq::new(12, |i: int| 0u8));
}

/// The two keys are the two halves of what is derived from the shared secret.
pub proof fn keys_are_two_halves(shared: Seq<u8>)
    ensures
        reality_keys(shared).0 == hkdf_sha256_64(shared, encode_utf8("ostp-reality-v1"@)).subrange(0, 32),
        reality_keys(shared).1 == hkdf_sha256_64(shared, encode_utf8("ostp-reality-v1"@)).subrange(32, 64),
{
}

proof fn lemma_extensions_len(sni: Seq<u8>, public: Seq<u8>)
    requires
        public.len() == 32,
    ensures
        extensions(sni, public).len() == 104 + sni.len(),
{
    assert(extension(0x0000, name_data(sni)).len() == 9 + sni.len());
    assert(extension(0x000a, group_data()).len() == 12);
    assert(extension(0x0033, share_data(public)).len() == 42);
    assert(extension(0x002b, version_data()).len() == 9);
    assert(extension(0x0010, protocol_data()).len() == 18);
    assert(extension(0x000d, signature_data()).len() == 14);
}

proof fn lemma_front_layout(session_id: Seq<u8>, random: Seq<u8>, n: int, rest: Seq<u8>)
    requires
        session_id.len() == 32,
        random.len() == 32,
    ensures
        ({
            let b = hello_front(session_id, random, n) + rest;
            &&& b.len() == 79 + rest.len()
            &&& b[0] == 3 && b[1] == 3 && b[34] == 32
            &&& b.subrange(2, 34) == random
            &&& b.subrange(35, 67) == session_id
        }),
{
    let b = hello_front(session_id, random, n) + rest;
    assert(b.subrange(2, 34) =~= random);
    assert(b.subrange(35, 67) =~= session_id);
}

proof fn lemma_record_layout(body: Seq<u8>)
    requires
        body.len() < 65532,
    ensures
        ({
            let h = hello_header(body.len() as int) + body + change_cipher();
            &&& h.len() == 9 + body.len() + 6
            &&& h[0] == 0x16 && h[1] == 3 && h[2] == 1 && h[5] == 1
            &&& h[3] * 256 + h[4] == body.len() + 4
            &&& h[6] * 65536 + h[7] * 256 + h[8] == body.len()
            &&& h.subrange(9, 9int + body.len()) == body
            &&& h.subrange(h.len() - 6, h.len() as int) == seq![0x14u8, 3, 3, 0, 1, 1]
        }),
{
    let n = body.len() as int;
    let head = hello_header(n);
    let h = head + body + change_cipher();
    assert((n + 4) % 65536 == n + 4);
    assert(h.take(9) =~= head);
    assert(h[3] == head[3] && h[4] == head[4] && h[6] == head[6] && h[7] == head[7] && h[8] == head[8]);
    assert(h.subrange(9, 9 + n) =~= body);
    assert(h.subrange(h.len() - 6, h.len() as int) =~= change_cipher());
}

/// A greeting looks like that of TLS: a handshake record whose length is its own, in it a client
/// hello of version 1.2 with the random bytes and the session, and behind it a change of cipher.
pub proof fn greetings_look_like_tls(sni: Seq<u8>, session_id: Seq<u8>, public: Seq<u8>, random: Seq<u8>)
    requires
        session_id.len() == 32,
        public.len() == 32,
        random.len() == 32,
        sni.len() <= 65348,
    ensures
        ({
            let h = hello(sni, session_id, public, random);
            &&& h[0] == 0x16 && h[1] == 3 && h[2] == 1
            &&& h[3] * 256 + h[4] + 5 + 6 == h.len()
            &&& h[5] == 1
            &&& h[6] * 65536 + h[7] * 256 + h[8] + 9 + 6 == h.len()
            &&& h[9] == 3 && h[10] == 3
            &&& h.subrange(11, 43) == random
            &&& h[43] == 32
            &&& h.subrange(44, 76) == session_id
            &&& h.subrange(h.len() - 6, h.len() as int) == seq![0x14u8, 3, 3, 0, 1, 1]
        }),
{
    let exts = extensions(sni, public);
    let body = hello_body(sni, session_id, public, random);
    let h = hello(sni, session_id, public, random);
    lemma_extensions_len(sni, public);
    lemma_front_layout(session_id, random, exts.len() as int, exts);
    lemma_record_layout(body);
    let inner = h.subrange(9, 9int + body.len());
    assert(inner[0] == h[9] && inner[1] == h[10] && inner[34] == h[43]);
    assert(h.subrange(11, 43) =~= inner.subrange(2, 34));
    assert(h.subrange(44, 76) =~= inner.subrange(35, 67));
}

/// What is no handshake record, no client hello or has no session of thirty-two bytes is no
/// greeting.
pub proof fn other_records_are_no_greeting(buf: Seq<u8>)
    ensures
        buf.len() < 9 || buf[0] != 0x16 || buf[5] != 1 || buf.len() - 5 < u16_at(buf, 3) ==> read_hello(buf) is None,
        body_in(buf) matches Some(b) && b.len() > 34 && b[34] != 32 ==> read_hello(buf) is None,
{
}

} // verus!
