//! Big-endian integers in byte sequences.

use vstd::prelude::*;
use vstd::slice::{slice_subrange, slice_to_vec};

verus! {

/// The two bytes of `x`, most significant first.
pub open spec fn be16(x: int) -> Seq<u8> {
    seq![(x / 256) as u8, (x % 256) as u8]
}

/// The four bytes of `x`, most significant first.
#[verifier::opaque]
pub open spec fn be32(x: int) -> Seq<u8> {
    be16(x / 0x1_0000) + be16(x % 0x1_0000)
}

/// The eight bytes of `x`, most significant first.
#[verifier::opaque]
pub open spec fn be64(x: int) -> Seq<u8> {
    be32(x / 0x1_0000_0000) + be32(x % 0x1_0000_0000)
}

/// The value of the two bytes that start at `i`.
pub open spec fn u16_at(s: Seq<u8>, i: int) -> int {
    s[i] * 256 + s[i + 1]
}

/// The value of the four bytes that start at `i`.
#[verifier::opaque]
pub open spec fn u32_at(s: Seq<u8>, i: int) -> int {
    u16_at(s, i) * 0x1_0000 + u16_at(s, i + 2)
}

/// The value of the eight bytes that start at `i`.
#[verifier::opaque]
pub open spec fn u64_at(s: Seq<u8>, i: int) -> int {
    u32_at(s, i) * 0x1_0000_0000 + u32_at(s, i + 4)
}

/// A 32-bit value takes four bytes.
pub broadcast proof fn lemma_be32_len(x: int)
    ensures
        #[trigger] be32(x).len() == 4,
{
    reveal(be32);
}

/// A 64-bit value takes eight bytes.
pub broadcast proof fn lemma_be64_len(x: int)
    ensures
        #[trigger] be64(x).len() == 8,
{
    reveal(be32);
    reveal(be64);
}

/// Four bytes hold a 32-bit value.
pub broadcast proof fn lemma_u32_at_range(s: Seq<u8>, i: int)
    ensures
        0 <= #[trigger] u32_at(s, i) <= u32::MAX,
{
    reveal(u32_at);
}

/// Eight bytes hold a 64-bit value.
pub broadcast proof fn lemma_u64_at_range(s: Seq<u8>, i: int)
    ensures
        0 <= #[trigger] u64_at(s, i) <= u64::MAX,
{
    reveal(u32_at);
    reveal(u64_at);
}

pub broadcast group group_big_endian {
    lemma_be32_len,
    lemma_be64_len,
    lemma_u32_at_range,
    lemma_u64_at_range,
}

/// Reading back the two bytes of a 16-bit value gives the value.
pub proof fn lemma_be16(s: Seq<u8>, i: int, x: int)
    requires
        0 <= x < 0x1_0000,
        0 <= i,
        i + 2 <= s.len(),
        s.subrange(i, i + 2) == be16(x),
    ensures
        u16_at(s, i) == x,
{
    let t = s.subrange(i, i + 2);
    assert(t[0] == s[i]);
    assert(t[1] == s[i + 1]);
}

/// Reading back the four bytes of a 32-bit value gives the value.
pub proof fn lemma_be32(s: Seq<u8>, i: int, x: int)
    requires
        0 <= x < 0x1_0000_0000,
        0 <= i,
        i + 4 <= s.len(),
        s.subrange(i, i + 4) == be32(x),
    ensures
        u32_at(s, i) == x,
{
    reveal(be32);
    reveal(u32_at);
    let t = s.subrange(i, i + 4);
    assert(s.subrange(i, i + 2) =~= t.subrange(0, 2));
    assert(t.subrange(0, 2) =~= be16(x / 0x1_0000));
    assert(s.subrange(i + 2, i + 4) =~= t.subrange(2, 4));
    assert(t.subrange(2, 4) =~= be16(x % 0x1_0000));
    lemma_be16(s, i, x / 0x1_0000);
    lemma_be16(s, i + 2, x % 0x1_0000);
}

/// Reading back the eight bytes of a 64-bit value gives the value.
pub proof fn lemma_be64(s: Seq<u8>, i: int, x: int)
    requires
        0 <= x <= u64::MAX,
        0 <= i,
        i + 8 <= s.len(),
        s.subrange(i, i + 8) == be64(x),
    ensures
        u64_at(s, i) == x,
{
    reveal(be64);
    reveal(u64_at);
    reveal(be32);
    let t = s.subrange(i, i + 8);
    assert(s.subrange(i, i + 4) =~= t.subrange(0, 4));
    assert(t.subrange(0, 4) =~= be32(x / 0x1_0000_0000));
    assert(s.subrange(i + 4, i + 8) =~= t.subrange(4, 8));
    assert(t.subrange(4, 8) =~= be32(x % 0x1_0000_0000));
    lemma_be32(s, i, x / 0x1_0000_0000);
    lemma_be32(s, i + 4, x % 0x1_0000_0000);
}

/// Two bytes are the encoding of the value that they have.
pub proof fn lemma_be16_of_read(s: Seq<u8>, i: int)
    requires
        0 <= i,
        i + 2 <= s.len(),
    ensures
        be16(u16_at(s, i)) == s.subrange(i, i + 2),
        0 <= u16_at(s, i) < 0x1_0000,
{
    let x = u16_at(s, i);
    assert(x / 256 == s[i] && x % 256 == s[i + 1]);
    assert(be16(x) =~= s.subrange(i, i + 2));
}

/// Four bytes are the encoding of the value that they have.
pub proof fn lemma_be32_of_read(s: Seq<u8>, i: int)
    requires
        0 <= i,
        i + 4 <= s.len(),
    ensures
        be32(u32_at(s, i)) == s.subrange(i, i + 4),
        0 <= u32_at(s, i) < 0x1_0000_0000,
{
    reveal(be32);
    reveal(u32_at);
    lemma_be16_of_read(s, i);
    lemma_be16_of_read(s, i + 2);
    let x = u32_at(s, i);
    assert(x / 0x1_0000 == u16_at(s, i) && x % 0x1_0000 == u16_at(s, i + 2));
    assert(be32(x) =~= s.subrange(i, i + 4));
}

/// Appends `x`, most significant byte first.
pub fn put_u16(out: &mut Vec<u8>, x: u16)
    ensures
        final(out)@ == old(out)@ + be16(x as int),
{
    out.push((x / 256) as u8);
    out.push((x % 256) as u8);
    assert(out@ =~= old(out)@ + be16(x as int));
}

/// Appends `x`, most significant byte first.
pub fn put_u32(out: &mut Vec<u8>, x: u32)
    ensures
        final(out)@ == old(out)@ + be32(x as int),
{
    proof {
        reveal(be32);
    }
    put_u16(out, (x / 0x1_0000) as u16);
    put_u16(out, (x % 0x1_0000) as u16);
    assert(out@ =~= old(out)@ + be32(x as int));
}

/// Appends `x`, most significant byte first.
pub fn put_u64(out: &mut Vec<u8>, x: u64)
    ensures
        final(out)@ == old(out)@ + be64(x as int),
{
    proof {
        reveal(be64);
    }
    put_u32(out, (x / 0x1_0000_0000) as u32);
    put_u32(out, (x % 0x1_0000_0000) as u32);
    assert(out@ =~= old(out)@ + be64(x as int));
}

/// The 16-bit value at `i`.
pub fn get_u16(s: &[u8], i: usize) -> (x: u16)
    requires
        i + 2 <= s@.len(),
    ensures
        x == u16_at(s@, i as int),
{
    s[i] as u16 * 256 + s[i + 1] as u16
}

/// The 32-bit value at `i`.
pub fn get_u32(s: &[u8], i: usize) -> (x: u32)
    requires
        i + 4 <= s@.len(),
    ensures
        x == u32_at(s@, i as int),
{
    proof {
        reveal(u32_at);
    }
    assert(s.len() == s@.len());
    get_u16(s, i) as u32 * 0x1_0000 + get_u16(s, i + 2) as u32
}

/// The 64-bit value at `i`.
pub fn get_u64(s: &[u8], i: usize) -> (x: u64)
    requires
        i + 8 <= s@.len(),
    ensures
        x == u64_at(s@, i as int),
{
    proof {
        reveal(u64_at);
    }
    assert(s.len() == s@.len());
    get_u32(s, i) as u64 * 0x1_0000_0000 + get_u32(s, i + 4) as u64
}

/// Appends the bytes of `s`.
pub fn put_slice(out: &mut Vec<u8>, s: &[u8])
    ensures
        final(out)@ == old(out)@ + s@,
{
    let mut i: usize = 0;
    while i < s.len()
        invariant
            i <= s@.len(),
            out@ == old(out)@ + s@.subrange(0, i as int),
        decreases s@.len() - i,
    {
        out.push(s[i]);
        i += 1;
        assert(out@ =~= old(out)@ + s@.subrange(0, i as int));
    }
    assert(s@.subrange(0, s@.len() as int) =~= s@);
}

/// The bytes `from..to` of `s`, copied.
pub fn copy_range(s: &[u8], from: usize, to: usize) -> (out: Vec<u8>)
    requires
        from <= to <= s@.len(),
    ensures
        out@ == s@.subrange(from as int, to as int),
{
    slice_to_vec(slice_subrange(s, from, to))
}

/// A copy of `s`.
pub fn copy_of(s: &[u8]) -> (out: Vec<u8>)
    ensures
        out@ == s@,
{
    slice_to_vec(s)
}

/// Whether the two hold the same bytes.
pub fn same_bytes(a: &[u8], b: &[u8]) -> (r: bool)
    ensures
        r == (a@ == b@),
{
    if a.len() != b.len() {
        return false;
    }
    let mut i: usize = 0;
    while i < a.len()
        invariant
            a@.len() == b@.len(),
            i <= a@.len(),
            forall|k: int| 0 <= k < i ==> a@[k] == b@[k],
        decreases a@.len() - i,
    {
        if a[i] != b[i] {
            return false;
        }
        i += 1;
    }
    assert(a@ =~= b@);
    true
}

/// The first eight bytes from `i` as an array.
pub fn array8(s: &[u8], i: usize) -> (out: [u8; 8])
    requires
        i + 8 <= s@.len(),
    ensures
        out@ == s@.subrange(i as int, i + 8),
{
    let out: [u8; 8] = [s[i], s[i + 1], s[i + 2], s[i + 3], s[i + 4], s[i + 5], s[i + 6], s[i + 7]];
    assert(out@ =~= s@.subrange(i as int, i + 8));
    out
}

/// The sixteen bytes from `i` as an array.
pub fn array16(s: &[u8], i: usize) -> (out: [u8; 16])
    requires
        i + 16 <= s@.len(),
    ensures
        out@ == s@.subrange(i as int, i + 16),
{
    let mut out: [u8; 16] = [0; 16];
    let mut k: usize = 0;
    while k < 16
        invariant
            k <= 16,
            i + 16 <= s@.len(),
            forall|j: int| 0 <= j < k ==> out@[j] == s@[i + j],
        decreases 16 - k,
    {
        assert(s.len() == s@.len());
        out[k] = s[i + k];
        k += 1;
    }
    assert(out@ =~= s@.subrange(i as int, i + 16));
    out
}

/// The thirty-two bytes from `i` as an array.
pub fn array32(s: &[u8], i: usize) -> (out: [u8; 32])
    requires
        i + 32 <= s@.len(),
    ensures
        out@ == s@.subrange(i as int, i + 32),
{
    let mut out: [u8; 32] = [0; 32];
    let mut k: usize = 0;
    while k < 32
        invariant
            k <= 32,
            i + 32 <= s@.len(),
            forall|j: int| 0 <= j < k ==> out@[j] == s@[i + j],
        decreases 32 - k,
    {
        assert(s.len() == s@.len());
        out[k] = s[i + k];
        k += 1;
    }
    assert(out@ =~= s@.subrange(i as int, i + 32));
    out
}

} // verus!
