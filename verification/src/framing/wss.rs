//! Binary WebSocket frames.

use rand::RngCore;
use vstd::prelude::*;

use crate::bytes::{be16, be64, copy_range, get_u16, get_u64, lemma_be16, lemma_be64, put_slice, put_u16, put_u64, u16_at, u64_at};

verus! {

broadcast use crate::bytes::group_big_endian;

#[derive(Debug)]
pub enum WssFrameResult {
    /// The buffer does not hold a whole frame yet.
    Incomplete,
    /// A frame, and how many bytes of the buffer it takes.
    Frame { payload: Vec<u8>, total_len: usize },
}

/// Bytes XORed with a repeated mask of four bytes.
pub open spec fn xor4(data: Seq<u8>, mask: Seq<u8>) -> Seq<u8> {
    Seq::new(data.len(), |i: int| data[i] ^ mask[i % 4])
}

/// The first bytes of a frame: FIN and binary, then the length in one, two or
/// eight bytes behind the mask bit.
pub open spec fn wss_head(len: int, masked: bool) -> Seq<u8> {
    let bit: int = if masked {
        128
    } else {
        0
    };
    if len <= 125 {
        seq![0x82u8, (bit + len) as u8]
    } else if len <= 65535 {
        seq![0x82u8, (bit + 126) as u8] + be16(len)
    } else {
        seq![0x82u8, (bit + 127) as u8] + be64(len)
    }
}

/// The frame of a payload, masked or not.
pub open spec fn wss_bytes(payload: Seq<u8>, mask: Option<Seq<u8>>) -> Seq<u8> {
    match mask {
        Some(m) => wss_head(payload.len() as int, true) + m + xor4(payload, m),
        None => wss_head(payload.len() as int, false) + payload,
    }
}

/// Where the length of a frame ends and what it says; nothing where the buffer
/// ends before that.
pub open spec fn wss_length(buf: Seq<u8>) -> Option<(int, int)> {
    if buf.len() < 2 {
        None
    } else {
        let short = buf[1] % 128;
        if short == 126 {
            if buf.len() < 4 {
                None
            } else {
                Some((4, u16_at(buf, 2)))
            }
        } else if short == 127 {
            if buf.len() < 10 {
                None
            } else {
                Some((10, u64_at(buf, 2)))
            }
        } else {
            Some((2, short as int))
        }
    }
}

/// The payload of the frame at the start of the buffer and the size of the
/// frame; nothing where the buffer does not hold all of it.
pub open spec fn wss_parse(buf: Seq<u8>) -> Option<(Seq<u8>, int)> {
    match wss_length(buf) {
        None => None,
        Some((head, len)) => {
            let masked = buf[1] >= 128;
            let start = if masked {
                head + 4
            } else {
                head
            };
            if buf.len() < start + len {
                None
            } else if masked {
                Some((xor4(buf.subrange(start, start + len), buf.subrange(head, head + 4)), start + len))
            } else {
                Some((buf.subrange(start, start + len), start + len))
            }
        },
    }
}

fn put_head(out: &mut Vec<u8>, len: usize, masked: bool)
    requires
        old(out)@.len() == 0,
    ensures
        final(out)@ == wss_head(len as int, masked),
{
    out.push(0x82);
    let bit: u8 = if masked {
        128
    } else {
        0
    };
    if len <= 125 {
        out.push(bit + len as u8);
    } else if len <= 65535 {
        out.push(bit + 126);
        put_u16(out, len as u16);
    } else {
        out.push(bit + 127);
        put_u64(out, len as u64);
    }
    assert(out@ =~= wss_head(len as int, masked));
}

fn put_xor(out: &mut Vec<u8>, data: &[u8], mask: &[u8; 4])
    ensures
        final(out)@ == old(out)@ + xor4(data@, mask@),
{
    let mut i: usize = 0;
    while i < data.len()
        invariant
            i <= data@.len(),
            out@ == old(out)@ + xor4(data@, mask@).subrange(0, i as int),
        decreases data@.len() - i,
    {
        out.push(data[i] ^ mask[i % 4]);
        i += 1;
        assert(out@ =~= old(out)@ + xor4(data@, mask@).subrange(0, i as int));
    }
    assert(xor4(data@, mask@).subrange(0, data@.len() as int) =~= xor4(data@, mask@));
}

/// `rand::RngCore::fill_bytes` of the thread's generator: four bytes.
#[verifier::external_body]
fn random_mask() -> (r: [u8; 4]) {
    let mut mask = [0u8; 4];
    rand::thread_rng().fill_bytes(&mut mask);
    mask
}

/// A binary frame; a masked one gets a random mask.
pub fn encode_wss_frame(payload: &[u8], masked: bool) -> (out: Vec<u8>)
    ensures
        !masked ==> out@ == wss_bytes(payload@, None),
        masked ==> exists|m: [u8; 4]| out@ == #[trigger] wss_bytes(payload@, Some(m@)),
{
    if masked {
        let mask = random_mask();
        encode_wss_frame_with(payload, Some(mask))
    } else {
        encode_wss_frame_with(payload, None)
    }
}

/// A binary frame with the given mask, or unmasked.
pub fn encode_wss_frame_with(payload: &[u8], mask: Option<[u8; 4]>) -> (out: Vec<u8>)
    ensures
        out@ == wss_bytes(
            payload@,
            match mask {
                Some(m) => Some(m@),
                None => None,
            },
        ),
{
    let mut out: Vec<u8> = Vec::new();
    match mask {
        Some(m) => {
            put_head(&mut out, payload.len(), true);
            put_slice(&mut out, &m);
            put_xor(&mut out, payload, &m);
        },
        None => {
            put_head(&mut out, payload.len(), false);
            put_slice(&mut out, payload);
        },
    }
    out
}

/// Reads the frame at the start of a buffer.
pub fn decode_wss_frame(buffer: &[u8]) -> (r: WssFrameResult)
    ensures
        match r {
            WssFrameResult::Incomplete => wss_parse(buffer@) is None,
            WssFrameResult::Frame { payload, total_len } => wss_parse(buffer@) == Some((payload@, total_len as int)),
        },
{
    if buffer.len() < 2 {
        return WssFrameResult::Incomplete;
    }
    let masked = buffer[1] >= 128;
    let short: u8 = buffer[1] % 128;
    let (head, len): (usize, u64) = if short == 126 {
        if buffer.len() < 4 {
            return WssFrameResult::Incomplete;
        }
        (4, get_u16(buffer, 2) as u64)
    } else if short == 127 {
        if buffer.len() < 10 {
            return WssFrameResult::Incomplete;
        }
        (10, get_u64(buffer, 2))
    } else {
        (2, short as u64)
    };
    let start: usize = if masked {
        head + 4
    } else {
        head
    };
    if buffer.len() < start || ((buffer.len() - start) as u64) < len {
        return WssFrameResult::Incomplete;
    }
    let total_len: usize = start + len as usize;
    if masked {
        let mask: [u8; 4] = [buffer[head], buffer[head + 1], buffer[head + 2], buffer[head + 3]];
        assert(mask@ =~= buffer@.subrange(head as int, head + 4));
        let body = copy_range(buffer, start, total_len);
        let mut payload: Vec<u8> = Vec::new();
        put_xor(&mut payload, &body, &mask);
        assert(payload@ =~= xor4(body@, mask@));
        WssFrameResult::Frame { payload, total_len }
    } else {
        WssFrameResult::Frame { payload: copy_range(buffer, start, total_len), total_len }
    }
}

proof fn lemma_xor4_twice(data: Seq<u8>, mask: Seq<u8>)
    ensures
        xor4(xor4(data, mask), mask) == data,
{
    assert forall|i: int| 0 <= i < data.len() implies xor4(xor4(data, mask), mask)[i] == data[i] by {
        let a = data[i];
        let m = mask[i % 4];
        assert((a ^ m) ^ m == a) by (bit_vector);
    }
    assert(xor4(xor4(data, mask), mask) =~= data);
}

proof fn lemma_head(n: int, masked: bool, tail: Seq<u8>)
    requires
        0 <= n <= u64::MAX,
    ensures
        wss_length(wss_head(n, masked) + tail) == Some((wss_head(n, masked).len() as int, n)),
        ((wss_head(n, masked) + tail)[1] >= 128) == masked,
        wss_head(n, masked).len() >= 2,
{
    let b = wss_head(n, masked) + tail;
    if n > 125 && n <= 65535 {
        assert(b.subrange(2, 4) =~= be16(n));
        lemma_be16(b, 2, n);
    } else if n > 65535 {
        assert(b.subrange(2, 10) =~= be64(n));
        lemma_be64(b, 2, n);
    }
}

/// A frame survives being written and read, masked or not, whatever follows it
/// in the buffer, and its size is reported.
pub proof fn wss_round_trips(payload: Seq<u8>, mask: Option<Seq<u8>>, rest: Seq<u8>)
    requires
        payload.len() <= u64::MAX,
        mask matches Some(m) ==> m.len() == 4,
    ensures
        wss_parse(wss_bytes(payload, mask) + rest) == Some((payload, wss_bytes(payload, mask).len() as int)),
{
    match mask {
        Some(m) => lemma_masked_round_trip(payload, m, rest),
        None => {
            let n = payload.len() as int;
            let head = wss_head(n, false);
            let b = wss_bytes(payload, mask) + rest;
            assert(b =~= head + (payload + rest));
            lemma_head(n, false, payload + rest);
            assert(b.subrange(head.len() as int, head.len() + n) =~= payload);
        },
    }
}

proof fn lemma_masked_round_trip(payload: Seq<u8>, m: Seq<u8>, rest: Seq<u8>)
    requires
        payload.len() <= u64::MAX,
        m.len() == 4,
    ensures
        wss_parse(wss_bytes(payload, Some(m)) + rest) == Some((payload, wss_bytes(payload, Some(m)).len() as int)),
{
    let n = payload.len() as int;
    let head = wss_head(n, true);
    let x = xor4(payload, m);
    let b = wss_bytes(payload, Some(m)) + rest;
    assert(b =~= head + (m + x + rest));
    lemma_head(n, true, m + x + rest);
    let start = head.len() + 4int;
    assert(b.subrange(head.len() as int, start) =~= m);
    assert(b.subrange(start, start + n) =~= x);
    lemma_xor4_twice(payload, m);
}

/// A frame begins with a byte for a whole binary message and one for the mask and the length;
/// longer lengths follow, most significant byte first, then the mask and what is hidden by it.
pub proof fn wss_frames_have_their_layout(payload: Seq<u8>, mask: Seq<u8>)
    requires
        payload.len() <= u64::MAX,
        mask.len() == 4,
    ensures
        wss_bytes(payload, None)[0] == 0x82 && wss_bytes(payload, Some(mask))[0] == 0x82,
        payload.len() <= 125 ==> wss_bytes(payload, None) == seq![0x82u8, payload.len() as u8] + payload && wss_bytes(
            payload,
            Some(mask),
        ) == seq![0x82u8, (payload.len() + 128) as u8] + mask + Seq::new(payload.len(), |i: int| payload[i] ^ mask[i % 4]),
        125 < payload.len() <= 65535 ==> wss_bytes(payload, None) == seq![
            0x82u8,
            126u8,
            (payload.len() / 256) as u8,
            (payload.len() % 256) as u8,
        ] + payload && wss_bytes(payload, Some(mask)) == seq![
            0x82u8,
            254u8,
            (payload.len() / 256) as u8,
            (payload.len() % 256) as u8,
        ] + mask + Seq::new(payload.len(), |i: int| payload[i] ^ mask[i % 4]),
        payload.len() > 65535 ==> wss_bytes(payload, None) == seq![0x82u8, 127u8] + be64(payload.len() as int) + payload
            && wss_bytes(payload, Some(mask)) == seq![0x82u8, 255u8] + be64(payload.len() as int) + mask + Seq::new(
            payload.len(),
            |i: int| payload[i] ^ mask[i % 4],
        ),
{
    assert(xor4(payload, mask) =~= Seq::new(payload.len(), |i: int| payload[i] ^ mask[i % 4]));
}

/// A frame that is not there as a whole is waited for.
pub proof fn unfinished_wss_frames_wait(payload: Seq<u8>, mask: Option<Seq<u8>>, k: int)
    requires
        payload.len() <= u64::MAX,
        mask matches Some(m) ==> m.len() == 4,
        0 <= k < wss_bytes(payload, mask).len(),
    ensures
        wss_parse(wss_bytes(payload, mask).take(k)) is None,
{
    broadcast use crate::bytes::group_big_endian;

    let whole = wss_bytes(payload, mask);
    let cut = whole.take(k);
    let n = payload.len() as int;
    let head = wss_head(n, mask is Some);
    assert(whole.take(head.len() as int) =~= head);
    if k >= head.len() {
        if 125 < n && n <= 65535 {
            assert(cut[2] == be16(n)[0] && cut[3] == be16(n)[1]) by {
                assert(cut[2] == head[2] && cut[3] == head[3]);
            }
            assert(cut.subrange(2, 4) =~= be16(n));
            lemma_be16(cut, 2, n);
        } else if n > 65535 {
            assert(cut.subrange(2, 10) =~= head.subrange(2, 10));
            assert(head.subrange(2, 10) =~= be64(n));
            lemma_be64(cut, 2, n);
        }
        assert(cut[1] == head[1]);
    } else if k >= 2 {
        assert(cut[1] == head[1]);
    }
}

} // verus!
