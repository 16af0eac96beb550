//! Hash functions.

use vstd::prelude::*;

verus! {

/// The SHA-256 digest of a message.
pub uninterp spec fn sha256(message: Seq<u8>) -> Seq<u8>;

/// The SHA-1 digest of a message.
pub uninterp spec fn sha1(message: Seq<u8>) -> Seq<u8>;

/// The HMAC with SHA-256 of a message under a key.
pub uninterp spec fn hmac_sha256(key: Seq<u8>, message: Seq<u8>) -> Seq<u8>;

/// The first 64 bytes that HKDF with SHA-256 and no salt expands from key
/// material for an application label.
pub uninterp spec fn hkdf_sha256_64(material: Seq<u8>, label: Seq<u8>) -> Seq<u8>;

/// `sha2::Sha256::digest`: the 32 bytes of the digest, a function of the
/// message alone.
#[verifier::external_body]
pub(crate) fn sha256_of(message: &[u8]) -> (r: [u8; 32])
    ensures
        r@ == sha256(message@),
{
    <sha2::Sha256 as sha2::Digest>::digest(message).into()
}

/// `sha1::Sha1::digest`: the 20 bytes of the digest, a function of the message
/// alone.
#[verifier::external_body]
pub(crate) fn sha1_of(message: &[u8]) -> (r: [u8; 20])
    ensures
        r@ == sha1(message@),
{
    <sha1::Sha1 as sha1::Digest>::digest(message).into()
}

/// `hmac::Hmac` with SHA-256, which takes a key of any length: the 32 bytes of
/// the code, a function of key and message alone.
#[verifier::external_body]
pub(crate) fn hmac_of(key: &[u8], message: &[u8]) -> (r: [u8; 32])
    ensures
        r@ == hmac_sha256(key@, message@),
{
    let mut mac = <hmac::Hmac<sha2::Sha256> as hmac::Mac>::new_from_slice(key).expect("HMAC takes a key of any length");
    hmac::Mac::update(&mut mac, message);
    hmac::Mac::finalize(mac).into_bytes().into()
}

/// `hkdf::Hkdf::new` without salt and `expand` to 64 bytes, which is within
/// the length that the function can expand to.
#[verifier::external_body]
pub(crate) fn hkdf_of(material: &[u8], label: &[u8]) -> (r: [u8; 64])
    ensures
        r@ == hkdf_sha256_64(material@, label@),
{
    let mut okm = [0u8; 64];
    hkdf::Hkdf::<sha2::Sha256>::new(None, material).expand(label, &mut okm).expect("64 bytes can be expanded");
    okm
}

} // verus!
