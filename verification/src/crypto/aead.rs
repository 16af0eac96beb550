//! ChaCha20-Poly1305, and the cipher of one direction of a session.

use chacha20poly1305::aead::{Aead, Payload};
use chacha20poly1305::{ChaCha20Poly1305, KeyInit};
use vstd::prelude::*;

use crate::bytes::{be64, put_u64};
use crate::protocol::ProtocolError;
use crate::text::owned;

verus! {

broadcast use crate::bytes::group_big_endian;

/// The ciphertext with its tag, or nothing where the plaintext is longer than
/// the cipher takes.
pub uninterp spec fn aead_seal(key: Seq<u8>, nonce: Seq<u8>, aad: Seq<u8>, plaintext: Seq<u8>) -> Option<Seq<u8>>;

/// The plaintext, or nothing where the ciphertext is not authentic.
pub uninterp spec fn aead_open(key: Seq<u8>, nonce: Seq<u8>, aad: Seq<u8>, ciphertext: Seq<u8>) -> Option<Seq<u8>>;

/// The error of `aead::Aead`.
#[verifier::external_type_specification]
#[verifier::external_body]
pub struct ExAeadError(chacha20poly1305::aead::Error);

/// Blocks of 64 bytes that one nonce can encrypt.
pub open spec fn max_plaintext() -> int {
    64 * 0xffff_ffffint
}

/// `chacha20poly1305::ChaCha20Poly1305::encrypt`. The result depends on key,
/// nonce, associated data and plaintext alone; it is an error exactly where the
/// plaintext fills more blocks than the counter has. A ciphertext is 16 bytes
/// longer than its plaintext, and opens to it.
#[verifier::external_body]
pub(crate) fn seal(key: &[u8; 32], nonce: &[u8; 12], aad: &[u8], plaintext: &[u8]) -> (r: Result<
    Vec<u8>,
    chacha20poly1305::aead::Error,
>)
    ensures
        r is Ok <==> plaintext@.len() < max_plaintext(),
        r is Ok <==> aead_seal(key@, nonce@, aad@, plaintext@) is Some,
        r matches Ok(c) ==> {
            &&& aead_seal(key@, nonce@, aad@, plaintext@) == Some(c@)
            &&& c@.len() == plaintext@.len() + 16
            &&& aead_open(key@, nonce@, aad@, c@) == Some(plaintext@)
        },
{
    ChaCha20Poly1305::new(key.into()).encrypt(nonce.into(), Payload { msg: plaintext, aad })
}

/// `chacha20poly1305::ChaCha20Poly1305::decrypt`. The result depends on key,
/// nonce, associated data and ciphertext alone. A plaintext is 16 bytes shorter
/// than its ciphertext.
#[verifier::external_body]
pub(crate) fn open(key: &[u8; 32], nonce: &[u8; 12], aad: &[u8], ciphertext: &[u8]) -> (r: Result<
    Vec<u8>,
    chacha20poly1305::aead::Error,
>)
    ensures
        match r {
            Ok(p) => aead_open(key@, nonce@, aad@, ciphertext@) == Some(p@) && p@.len() + 16 == ciphertext@.len(),
            Err(_) => aead_open(key@, nonce@, aad@, ciphertext@) is None,
        },
{
    ChaCha20Poly1305::new(key.into()).decrypt(nonce.into(), Payload { msg: ciphertext, aad })
}

/// The nonce of the `n`-th packet: four zero bytes and the number.
pub open spec fn packet_nonce(n: int) -> Seq<u8> {
    seq![0u8, 0, 0, 0] + be64(n)
}

fn nonce_bytes(n: u64) -> (r: [u8; 12])
    ensures
        r@ == packet_nonce(n as int),
{
    let mut v: Vec<u8> = Vec::new();
    put_u64(&mut v, n);
    let r: [u8; 12] = [0, 0, 0, 0, v[0], v[1], v[2], v[3], v[4], v[5], v[6], v[7]];
    assert(r@ =~= packet_nonce(n as int));
    r
}

/// The cipher of one direction of a session.
pub struct SessionCipher {
    key: [u8; 32],
}

impl View for SessionCipher {
    type V = Seq<u8>;

    /// The key.
    closed spec fn view(&self) -> Seq<u8> {
        self.key@
    }
}

impl SessionCipher {
    pub fn new(key: &[u8; 32]) -> (r: Self)
        ensures
            r@ == key@,
    {
        SessionCipher { key: *key }
    }

    /// Encrypts packet number `nonce`.
    pub fn encrypt(&self, nonce: u64, plaintext: &[u8], aad: &[u8]) -> (r: Result<Vec<u8>, ProtocolError>)
        ensures
            r is Ok <==> plaintext@.len() < max_plaintext(),
            match r {
                Ok(c) => {
                    &&& aead_seal(self@, packet_nonce(nonce as int), aad@, plaintext@) == Some(c@)
                    &&& c@.len() == plaintext@.len() + 16
                    &&& aead_open(self@, packet_nonce(nonce as int), aad@, c@) == Some(plaintext@)
                },
                Err(e) => e is Crypto && aead_seal(self@, packet_nonce(nonce as int), aad@, plaintext@) is None,
            },
    {
        match seal(&self.key, &nonce_bytes(nonce), aad, plaintext) {
            Ok(c) => Ok(c),
            Err(_) => Err(ProtocolError::Crypto(owned("aead-encrypt"))),
        }
    }

    /// Decrypts packet number `nonce`.
    pub fn decrypt(&self, nonce: u64, ciphertext: &[u8], aad: &[u8]) -> (r: Result<Vec<u8>, ProtocolError>)
        ensures
            match r {
                Ok(p) => {
                    &&& aead_open(self@, packet_nonce(nonce as int), aad@, ciphertext@) == Some(p@)
                    &&& p@.len() + 16 == ciphertext@.len()
                },
                Err(e) => e is Crypto && aead_open(self@, packet_nonce(nonce as int), aad@, ciphertext@) is None,
            },
    {
        match open(&self.key, &nonce_bytes(nonce), aad, ciphertext) {
            Ok(p) => Ok(p),
            Err(_) => Err(ProtocolError::Crypto(owned("aead-decrypt"))),
        }
    }
}

/// Each packet has a nonce of its own: four zeros and its number, most significant byte first.
pub proof fn packets_have_their_own_nonces(n: int, m: int)
    requires
        0 <= n <= u64::MAX,
        0 <= m <= u64::MAX,
    ensures
        packet_nonce(n).len() == 12,
        forall|i: int| 0 <= i < 4 ==> #[trigger] packet_nonce(n)[i] == 0,
        crate::bytes::u64_at(packet_nonce(n), 4) == n,
        n != m ==> packet_nonce(n) != packet_nonce(m),
{
    broadcast use crate::bytes::group_big_endian;

    assert(packet_nonce(n).subrange(4, 12) =~= be64(n));
    assert(packet_nonce(m).subrange(4, 12) =~= be64(m));
    crate::bytes::lemma_be64(packet_nonce(n), 4, n);
    crate::bytes::lemma_be64(packet_nonce(m), 4, m);
}

/// A message that is longer than the cipher takes is told by its blocks of sixty-four bytes.
pub proof fn messages_have_a_greatest_length()
    ensures
        max_plaintext() == 274_877_906_880,
{
}

} // verus!
