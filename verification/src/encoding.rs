//! Bytes as text.

use base64::engine::general_purpose::{STANDARD, URL_SAFE_NO_PAD};
use base64::Engine;
use vstd::prelude::*;

use crate::text::string_of;

verus! {

/// A digit of base sixteen, in lower case.
pub open spec fn hex_char(d: int) -> char {
    if d < 10 {
        (0x30 + d) as char
    } else {
        (0x61 + d - 10) as char
    }
}

/// Two digits for each byte.
pub open spec fn hex(b: Seq<u8>) -> Seq<char> {
    Seq::new(
        b.len() * 2,
        |i: int|
            hex_char(
                if i % 2 == 0 {
                    b[i / 2] as int / 16
                } else {
                    b[i / 2] as int % 16
                },
            ),
    )
}

fn hex_digit_char(d: u8) -> (c: char)
    requires
        d < 16,
    ensures
        c == hex_char(d as int),
{
    if d < 10 {
        (0x30 + d) as char
    } else {
        (0x61 + (d - 10)) as char
    }
}

pub fn hex_text(b: &[u8]) -> (r: String)
    ensures
        r@ == hex(b@),
{
    let mut v: Vec<char> = Vec::new();
    let mut i: usize = 0;
    while i < b.len()
        invariant
            i <= b@.len(),
            v@.len() == i * 2,
            forall|k: int| 0 <= k < v@.len() ==> #[trigger] v@[k] == hex(b@)[k],
        decreases b@.len() - i,
    {
        v.push(hex_digit_char(b[i] / 16));
        v.push(hex_digit_char(b[i] % 16));
        i += 1;
    }
    assert(v@ =~= hex(b@));
    string_of(&v)
}

/// A character of the standard alphabet of base 64, or its padding.
pub open spec fn base64_char(c: char) -> bool {
    crate::text::is_alnum(c) || c == '+' || c == '/' || c == '='
}

/// Bytes in base 64, with the standard alphabet and padding.
pub uninterp spec fn base64_text(b: Seq<u8>) -> Seq<char>;

/// The bytes of a text in base 64, with the standard alphabet and padding.
pub uninterp spec fn base64_bytes(s: Seq<char>) -> Option<Seq<u8>>;

/// The bytes of a text in base 64, with the alphabet for addresses and without
/// padding.
pub uninterp spec fn url_base64_bytes(s: Seq<char>) -> Option<Seq<u8>>;

/// `base64::Engine::encode` of the standard engine: a text of the standard
/// alphabet and padding, a function of the bytes alone, which the same engine
/// decodes to those bytes.
#[verifier::external_body]
pub(crate) fn base64_of(b: &[u8]) -> (r: String)
    ensures
        r@ == base64_text(b@),
        base64_bytes(r@) == Some(b@),
        forall|i: int| 0 <= i < r@.len() ==> base64_char(#[trigger] r@[i]),
{
    STANDARD.encode(b)
}

/// `base64::Engine::decode` of the standard engine: the bytes, or an error, a
/// function of the text alone.
#[verifier::external_body]
pub(crate) fn base64_read(s: &str) -> (r: Option<Vec<u8>>)
    ensures
        match r {
            Some(b) => base64_bytes(s@) == Some(b@),
            None => base64_bytes(s@) is None,
        },
{
    STANDARD.decode(s).ok()
}

/// `base64::Engine::decode` of the engine for addresses without padding: the
/// bytes, or an error, a function of the text alone.
#[verifier::external_body]
pub(crate) fn url_base64_read(s: &str) -> (r: Option<Vec<u8>>)
    ensures
        match r {
            Some(b) => url_base64_bytes(s@) == Some(b@),
            None => url_base64_bytes(s@) is None,
        },
{
    URL_SAFE_NO_PAD.decode(s).ok()
}

/// Each byte is written as two hexadecimal digits in lower case, the higher one first.
pub proof fn bytes_are_two_digits(b: Seq<u8>, i: int)
    requires
        0 <= i < b.len(),
    ensures
        hex(b).len() == 2 * b.len(),
        crate::net::hex_value_of(hex(b)[2 * i]) * 16 + crate::net::hex_value_of(hex(b)[2 * i + 1]) == b[i],
        ('0' <= hex(b)[2 * i] <= '9') || ('a' <= hex(b)[2 * i] <= 'f'),
        ('0' <= hex(b)[2 * i + 1] <= '9') || ('a' <= hex(b)[2 * i + 1] <= 'f'),
{
    assert((2 * i) % 2 == 0 && (2 * i) / 2 == i);
    assert((2 * i + 1) % 2 == 1 && (2 * i + 1) / 2 == i);
}

} // verus!
