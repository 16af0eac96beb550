//! Secrets derived from an access key, and the disguise of packet headers.

use vstd::prelude::*;
use vstd::slice::slice_subrange;
use vstd::utf8::encode_utf8;

use crate::bytes::{array8, be64, copy_of, put_slice, put_u64};
use crate::crypto::digest::{hmac_of, hmac_sha256, sha256, sha256_of};
use crate::time::unix_secs;

verus! {

broadcast use crate::bytes::group_big_endian;

/// Bytes at the start of a data packet that the mask covers: session id and
/// nonce.
pub const DATA_HEADER: usize = 12;

/// Bytes at the start of a handshake packet that the mask covers: session id
/// and length of the handshake message.
pub const HANDSHAKE_HEADER: usize = 6;

// ── Derivation ───────────────────────────────────────────────────────────────

/// The text that is hashed after the access key to give the pre-shared key.
pub open spec fn psk_salt() -> Seq<u8> {
    encode_utf8("-ostp-psk-salt"@)
}

/// The text that is hashed after the access key to give the padding range.
pub open spec fn pad_salt() -> Seq<u8> {
    encode_utf8("-ostp-pad-salt"@)
}

pub open spec fn obfuscation_key_of(access_key: Seq<u8>) -> Seq<u8> {
    sha256(access_key).subrange(0, 8)
}

pub open spec fn psk_of(access_key: Seq<u8>) -> Seq<u8> {
    sha256(access_key + psk_salt())
}

/// The shortest handshake padding for a key: 16 to 79 bytes.
pub open spec fn pad_min_of(access_key: Seq<u8>) -> int {
    16 + sha256(access_key + pad_salt())[0] % 64
}

/// The longest handshake padding for a key: 48 to 175 bytes more than the
/// shortest.
pub open spec fn pad_max_of(access_key: Seq<u8>) -> int {
    pad_min_of(access_key) + 48 + sha256(access_key + pad_salt())[1] % 128
}

/// The key that masks packet headers: the first eight bytes of the digest of
/// the access key.
pub fn derive_obfuscation_key(access_key: &[u8]) -> (key: [u8; 8])
    ensures
        key@ == obfuscation_key_of(access_key@),
{
    let d = sha256_of(access_key);
    array8(&d, 0)
}

/// The pre-shared key of the handshake.
pub fn derive_psk(access_key: &[u8]) -> (psk: [u8; 32])
    ensures
        psk@ == psk_of(access_key@),
{
    let mut m = copy_of(access_key);
    put_slice(&mut m, "-ostp-psk-salt".as_bytes());
    sha256_of(&m)
}

/// Everything that both ends derive from an access key.
#[derive(Clone, Copy, Debug)]
pub struct DerivedSecrets {
    pub obfuscation_key: [u8; 8],
    pub psk: [u8; 32],
    pub handshake_pad_min: usize,
    pub handshake_pad_max: usize,
}

impl DerivedSecrets {
    /// These are the secrets of `access_key`.
    pub open spec fn of(&self, access_key: Seq<u8>) -> bool {
        &&& self.obfuscation_key@ == obfuscation_key_of(access_key)
        &&& self.psk@ == psk_of(access_key)
        &&& self.handshake_pad_min == pad_min_of(access_key)
        &&& self.handshake_pad_max == pad_max_of(access_key)
    }
}

/// Derives all secrets of an access key.
pub fn derive_all_secrets(access_key: &[u8]) -> (r: DerivedSecrets)
    ensures
        r.of(access_key@),
        16 <= r.handshake_pad_min < 80,
        r.handshake_pad_min + 48 <= r.handshake_pad_max <= r.handshake_pad_min + 175,
{
    let mut m = copy_of(access_key);
    put_slice(&mut m, "-ostp-pad-salt".as_bytes());
    let h = sha256_of(&m);
    let min: usize = 16 + (h[0] % 64) as usize;
    let max: usize = min + 48 + (h[1] % 128) as usize;
    DerivedSecrets {
        obfuscation_key: derive_obfuscation_key(access_key),
        psk: derive_psk(access_key),
        handshake_pad_min: min,
        handshake_pad_max: max,
    }
}

/// Seconds for which a junk marker is in use.
pub const JUNK_WINDOW_SECS: u64 = 60;

/// The message whose code gives the junk marker of a time window.
pub open spec fn junk_message(window: int) -> Seq<u8> {
    encode_utf8("ostp-junk"@) + be64(window)
}

/// The first four bytes of a junk frame in a time window.
pub open spec fn junk_marker_of(access_key: Seq<u8>, window: int) -> Seq<u8> {
    hmac_sha256(access_key, junk_message(window)).subrange(0, 4)
}

/// The marker of junk frames for a key and a time window.
pub fn derive_junk_marker(access_key: &[u8], window: u64) -> (r: [u8; 4])
    ensures
        r@ == junk_marker_of(access_key@, window as int),
{
    let mut m: Vec<u8> = Vec::new();
    put_slice(&mut m, "ostp-junk".as_bytes());
    put_u64(&mut m, window);
    assert(m@ =~= junk_message(window as int));
    let h = hmac_of(access_key, &m);
    let r: [u8; 4] = [h[0], h[1], h[2], h[3]];
    assert(r@ =~= h@.subrange(0, 4));
    r
}

/// The present time window of junk markers.
pub fn current_junk_window() -> (r: u64) {
    unix_secs() / JUNK_WINDOW_SECS
}

// ── Masking ──────────────────────────────────────────────────────────────────

/// The first 32 bytes of a payload, filled up with zeros.
pub open spec fn payload_sample(payload: Seq<u8>) -> Seq<u8> {
    Seq::new(
        32,
        |i: int|
            if i < payload.len() {
                payload[i]
            } else {
                0u8
            },
    )
}

/// The mask that a payload gives under a key.
pub open spec fn payload_mask(key: Seq<u8>, payload: Seq<u8>) -> Seq<u8> {
    hmac_sha256(key, payload_sample(payload))
}

/// `raw` with its first `n` bytes masked.
pub open spec fn masked(raw: Seq<u8>, mask: Seq<u8>, n: int) -> Seq<u8> {
    Seq::new(
        raw.len(),
        |i: int|
            if i < n {
                raw[i] ^ mask[i]
            } else {
                raw[i]
            },
    )
}

/// A packet with its header masked by what follows the header. A packet that is shorter
/// than its header stays as it is, and so does a handshake that ends with it.
pub open spec fn obfuscated(raw: Seq<u8>, key: Seq<u8>, is_handshake: bool) -> Seq<u8> {
    let n: int = if is_handshake {
        HANDSHAKE_HEADER as int
    } else {
        DATA_HEADER as int
    };
    if raw.len() > n || (!is_handshake && raw.len() == n) {
        masked(raw, payload_mask(key, raw.subrange(n, raw.len() as int)), n)
    } else {
        raw
    }
}

/// A packet with the mask of its header taken off: the mask is put on once more.
pub open spec fn deobfuscated(raw: Seq<u8>, key: Seq<u8>, is_handshake: bool) -> Seq<u8> {
    obfuscated(raw, key, is_handshake)
}

proof fn lemma_xor_twice(a: u8, m: u8)
    ensures
        (a ^ m) ^ m == a,
{
    assert((a ^ m) ^ m == a) by (bit_vector);
}

/// Masking twice with one mask changes nothing.
pub proof fn lemma_masked_twice(raw: Seq<u8>, mask: Seq<u8>, n: int)
    ensures
        masked(masked(raw, mask, n), mask, n) == raw,
{
    let once = masked(raw, mask, n);
    assert forall|i: int| 0 <= i < raw.len() implies masked(once, mask, n)[i] == raw[i] by {
        lemma_xor_twice(raw[i], mask[i]);
    }
    assert(masked(once, mask, n) =~= raw);
}

/// A packet that was obfuscated under a key is recovered under that key.
pub proof fn deobfuscation_recovers_the_packet(raw: Seq<u8>, key: Seq<u8>, is_handshake: bool)
    ensures
        deobfuscated(obfuscated(raw, key, is_handshake), key, is_handshake) == raw,
{
    let n: int = if is_handshake {
        HANDSHAKE_HEADER as int
    } else {
        DATA_HEADER as int
    };
    if raw.len() >= n {
        let mask = payload_mask(key, raw.subrange(n, raw.len() as int));
        let wire = masked(raw, mask, n);
        assert(wire.subrange(n, wire.len() as int) =~= raw.subrange(n, raw.len() as int));
        lemma_masked_twice(raw, mask, n);
    }
}

/// Obfuscation leaves everything after the header as it is.
pub proof fn obfuscation_keeps_the_payload(raw: Seq<u8>, key: Seq<u8>, is_handshake: bool, i: int)
    requires
        (if is_handshake {
            HANDSHAKE_HEADER as int
        } else {
            DATA_HEADER as int
        }) <= i < raw.len(),
    ensures
        obfuscated(raw, key, is_handshake).len() == raw.len(),
        obfuscated(raw, key, is_handshake)[i] == raw[i],
{
}

/// The mask that `payload` gives under `key`.
fn derive_payload_mask(key: &[u8; 8], payload: &[u8]) -> (mask: [u8; 32])
    ensures
        mask@ == payload_mask(key@, payload@),
{
    let mut sample: [u8; 32] = [0; 32];
    let mut i: usize = 0;
    while i < 32 && i < payload.len()
        invariant
            i <= 32,
            i <= payload@.len(),
            forall|k: int| 0 <= k < i ==> sample@[k] == payload@[k],
            forall|k: int| i <= k < 32 ==> sample@[k] == 0,
        decreases 32 - i,
    {
        sample[i] = payload[i];
        i += 1;
    }
    assert(sample@ =~= payload_sample(payload@));
    hmac_of(key, &sample)
}

fn mask_prefix(raw: &mut [u8], mask: &[u8; 32], n: usize)
    requires
        n <= 32,
        n <= old(raw)@.len(),
    ensures
        final(raw)@ == masked(old(raw)@, mask@, n as int),
{
    let mut i: usize = 0;
    while i < n
        invariant
            i <= n <= 32,
            n <= raw@.len(),
            raw@.len() == old(raw)@.len(),
            forall|k: int| 0 <= k < i ==> raw@[k] == old(raw)@[k] ^ mask@[k],
            forall|k: int| i <= k < raw@.len() ==> raw@[k] == old(raw)@[k],
        decreases n - i,
    {
        let b: u8 = raw[i] ^ mask[i];
        raw[i] = b;
        i += 1;
    }
    assert(raw@ =~= masked(old(raw)@, mask@, n as int));
}

/// Masks the header of a packet in place.
pub fn obfuscate_packet_inplace(raw: &mut [u8], key: &[u8; 8], is_handshake: bool)
    ensures
        final(raw)@ == obfuscated(old(raw)@, key@, is_handshake),
{
    let n: usize = if is_handshake {
        HANDSHAKE_HEADER
    } else {
        DATA_HEADER
    };
    if raw.len() > n || (!is_handshake && raw.len() == n) {
        let mask = derive_payload_mask(key, slice_subrange(raw, n, raw.len()));
        mask_prefix(raw, &mask, n);
    }
}

/// Takes the mask off the header of a data packet; a handshake header stays.
pub fn deobfuscate_header_inplace(header: &mut [u8; 12], ciphertext: &[u8], key: &[u8; 8], is_handshake: bool)
    ensures
        final(header)@ == if is_handshake {
            old(header)@
        } else {
            masked(old(header)@, payload_mask(key@, ciphertext@), 12)
        },
{
    if !is_handshake {
        let mask = derive_payload_mask(key, ciphertext);
        let mut i: usize = 0;
        while i < 12
            invariant
                i <= 12,
                forall|k: int| 0 <= k < i ==> header@[k] == old(header)@[k] ^ mask@[k],
                forall|k: int| i <= k < 12 ==> header@[k] == old(header)@[k],
            decreases 12 - i,
        {
            let b: u8 = header[i] ^ mask[i];
            header[i] = b;
            i += 1;
        }
        assert(header@ =~= masked(old(header)@, payload_mask(key@, ciphertext@), 12));
    }
}

/// Takes the mask off the header of a packet in place.
pub fn deobfuscate_packet_inplace(raw: &mut [u8], key: &[u8; 8], is_handshake: bool)
    ensures
        final(raw)@ == deobfuscated(old(raw)@, key@, is_handshake),
{
    obfuscate_packet_inplace(raw, key, is_handshake);
}

/// The head of a packet, twelve bytes or six of a handshake, is hidden by a digest of what
/// follows it, and nothing else is changed.
pub proof fn heads_are_hidden(raw: Seq<u8>, key: Seq<u8>, i: int)
    requires
        0 <= i < raw.len(),
    ensures
        raw.len() >= 12 && i < 12 ==> obfuscated(raw, key, false)[i] == raw[i] ^ hmac_sha256(
            key,
            payload_sample(raw.skip(12)),
        )[i],
        raw.len() > 6 && i < 6 ==> obfuscated(raw, key, true)[i] == raw[i] ^ hmac_sha256(key, payload_sample(raw.skip(6)))[i],
        i >= 12 || raw.len() < 12 ==> obfuscated(raw, key, false)[i] == raw[i],
        i >= 6 || raw.len() <= 6 ==> obfuscated(raw, key, true)[i] == raw[i],
{
    if raw.len() >= 12 {
        assert(raw.skip(12) =~= raw.subrange(12, raw.len() as int));
    }
    if raw.len() >= 6 {
        assert(raw.skip(6) =~= raw.subrange(6, raw.len() as int));
    }
}

/// What hides a head is taken from the first thirty-two bytes behind it, or as many as there
/// are, and zeros.
pub proof fn samples_are_the_first_bytes(payload: Seq<u8>, i: int)
    requires
        0 <= i < 32,
    ensures
        payload_sample(payload).len() == 32,
        i < payload.len() ==> payload_sample(payload)[i] == payload[i],
        i >= payload.len() ==> payload_sample(payload)[i] == 0,
{
}

/// All secrets are digests of the access key, each with its own salt.
pub proof fn secrets_come_from_the_access_key(access_key: Seq<u8>, s: DerivedSecrets)
    requires
        s.of(access_key),
    ensures
        s.obfuscation_key@ == sha256(access_key).subrange(0, 8),
        s.psk@ == sha256(access_key + encode_utf8("-ostp-psk-salt"@)),
        s.handshake_pad_min == 16 + sha256(access_key + encode_utf8("-ostp-pad-salt"@))[0] % 64,
        s.handshake_pad_max == s.handshake_pad_min + 48 + sha256(access_key + encode_utf8("-ostp-pad-salt"@))[1] % 128,
        16 <= s.handshake_pad_min < 80,
        48 <= s.handshake_pad_max - s.handshake_pad_min < 176,
{
}

/// The mark of a junk packet is four bytes of a digest, which the access key and the time give.
pub proof fn junk_is_marked_by_key_and_time(access_key: Seq<u8>, window: int)
    ensures
        junk_marker_of(access_key, window) == hmac_sha256(
            access_key,
            encode_utf8("ostp-junk"@) + crate::bytes::be64(window),
        ).subrange(0, 4),
        JUNK_WINDOW_SECS == 60,
{
}

} // verus!
