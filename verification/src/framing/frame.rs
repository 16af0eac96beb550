//! The frame that a packet carries: a header, a payload and padding.
//!
//! `[version:1][kind:1][reserved:2][stream_id:2][payload_len:4][pad_len:2]`

use vstd::prelude::*;

use crate::bytes::{
    be16, be32, copy_range, get_u16, get_u32, lemma_be16, lemma_be32, put_slice, put_u16, put_u32, u16_at, u32_at,
};
use crate::protocol::ProtocolError;
use crate::text::owned;

verus! {

broadcast use crate::bytes::group_big_endian;

/// Bytes of a frame header.
pub const FRAME_HEADER_LEN: usize = 12;

/// What a frame is for.
#[derive(Debug, Clone, Copy, PartialEq, Eq, Structural)]
pub enum FrameKind {
    Handshake,
    Data,
    Close,
    KeepAlive,
    Nack,
    Ack,
}

/// The byte of a frame kind.
pub open spec fn kind_byte(k: FrameKind) -> u8 {
    match k {
        FrameKind::Handshake => 1,
        FrameKind::Data => 2,
        FrameKind::Close => 3,
        FrameKind::KeepAlive => 4,
        FrameKind::Nack => 5,
        FrameKind::Ack => 6,
    }
}

/// The kind that a byte stands for.
pub open spec fn kind_of(b: u8) -> Option<FrameKind> {
    if b == 1 {
        Some(FrameKind::Handshake)
    } else if b == 2 {
        Some(FrameKind::Data)
    } else if b == 3 {
        Some(FrameKind::Close)
    } else if b == 4 {
        Some(FrameKind::KeepAlive)
    } else if b == 5 {
        Some(FrameKind::Nack)
    } else if b == 6 {
        Some(FrameKind::Ack)
    } else {
        None
    }
}

impl FrameKind {
    pub fn to_byte(self) -> (b: u8)
        ensures
            b == kind_byte(self),
    {
        match self {
            FrameKind::Handshake => 1,
            FrameKind::Data => 2,
            FrameKind::Close => 3,
            FrameKind::KeepAlive => 4,
            FrameKind::Nack => 5,
            FrameKind::Ack => 6,
        }
    }

    /// The kind that a byte stands for; a framing error for any other byte.
    pub fn from_byte(b: u8) -> (r: Result<FrameKind, ProtocolError>)
        ensures
            match r {
                Ok(k) => kind_of(b) == Some(k),
                Err(e) => kind_of(b) is None && e is Framing,
            },
    {
        match b {
            1 => Ok(FrameKind::Handshake),
            2 => Ok(FrameKind::Data),
            3 => Ok(FrameKind::Close),
            4 => Ok(FrameKind::KeepAlive),
            5 => Ok(FrameKind::Nack),
            6 => Ok(FrameKind::Ack),
            _ => Err(ProtocolError::Framing(owned("unknown frame kind"))),
        }
    }
}

#[derive(Debug, Clone, Copy, PartialEq, Eq, Structural)]
pub struct FrameHeader {
    pub version: u8,
    pub kind: FrameKind,
    pub stream_id: u16,
    pub payload_len: u32,
    pub pad_len: u16,
}

/// The bytes of a header.
pub open spec fn header_bytes(h: FrameHeader) -> Seq<u8> {
    seq![h.version, kind_byte(h.kind), 0u8, 0u8] + be16(h.stream_id as int) + be32(h.payload_len as int) + be16(
        h.pad_len as int,
    )
}

/// The header at the start of `buf`.
pub open spec fn header_of(buf: Seq<u8>) -> Option<FrameHeader> {
    if buf.len() < FRAME_HEADER_LEN {
        None
    } else {
        match kind_of(buf[1]) {
            Some(kind) => Some(
                FrameHeader {
                    version: buf[0],
                    kind,
                    stream_id: u16_at(buf, 4) as u16,
                    payload_len: u32_at(buf, 6) as u32,
                    pad_len: u16_at(buf, 10) as u16,
                },
            ),
            None => None,
        }
    }
}

impl FrameHeader {
    /// Appends the bytes of the header.
    pub fn encode(&self, out: &mut Vec<u8>)
        ensures
            final(out)@ == old(out)@ + header_bytes(*self),
    {
        out.push(self.version);
        out.push(self.kind.to_byte());
        out.push(0);
        out.push(0);
        put_u16(out, self.stream_id);
        put_u32(out, self.payload_len);
        put_u16(out, self.pad_len);
        assert(out@ =~= old(out)@ + header_bytes(*self));
    }

    /// Reads the header at the start of `buf`.
    pub fn decode(buf: &[u8]) -> (r: Result<Self, ProtocolError>)
        ensures
            match r {
                Ok(h) => header_of(buf@) == Some(h),
                Err(e) => header_of(buf@) is None && e is Framing,
            },
    {
        if buf.len() < FRAME_HEADER_LEN {
            return Err(ProtocolError::Framing(owned("truncated frame header")));
        }
        match FrameKind::from_byte(buf[1]) {
            Ok(kind) => Ok(
                FrameHeader {
                    version: buf[0],
                    kind,
                    stream_id: get_u16(buf, 4),
                    payload_len: get_u32(buf, 6),
                    pad_len: get_u16(buf, 10),
                },
            ),
            Err(e) => Err(e),
        }
    }
}

/// What a frame holds.
#[verifier::ext_equal]
pub struct Frame {
    pub header: FrameHeader,
    pub payload: Seq<u8>,
    pub padding: Seq<u8>,
}

#[derive(Debug, Clone)]
pub struct FramedPacket {
    pub header: FrameHeader,
    pub payload: Vec<u8>,
    pub padding: Vec<u8>,
}

impl View for FramedPacket {
    type V = Frame;

    open spec fn view(&self) -> Frame {
        Frame { header: self.header, payload: self.payload@, padding: self.padding@ }
    }
}

impl Frame {
    /// The header states the sizes of the parts.
    pub open spec fn consistent(self) -> bool {
        self.header.payload_len == self.payload.len() && self.header.pad_len == self.padding.len()
    }

    pub open spec fn bytes(self) -> Seq<u8> {
        header_bytes(self.header) + self.payload + self.padding
    }

    /// The frame at the start of `buf`; what follows it is ignored.
    pub open spec fn parse(buf: Seq<u8>) -> Option<Frame> {
        match header_of(buf) {
            Some(h) => if buf.len() < FRAME_HEADER_LEN + h.payload_len + h.pad_len {
                None
            } else {
                Some(
                    Frame {
                        header: h,
                        payload: buf.subrange(
                            FRAME_HEADER_LEN as int,
                            FRAME_HEADER_LEN + h.payload_len,
                        ),
                        padding: buf.subrange(
                            FRAME_HEADER_LEN + h.payload_len,
                            FRAME_HEADER_LEN + h.payload_len + h.pad_len,
                        ),
                    },
                )
            },
            None => None,
        }
    }
}

impl FramedPacket {
    /// The bytes of the frame.
    pub fn encode(&self) -> (out: Vec<u8>)
        ensures
            out@ == self@.bytes(),
    {
        let mut out: Vec<u8> = Vec::new();
        self.header.encode(&mut out);
        put_slice(&mut out, &self.payload);
        put_slice(&mut out, &self.padding);
        assert(out@ =~= self@.bytes());
        out
    }

    /// Reads the frame at the start of `buf`: a framing error where the header
    /// is short, of an unknown kind, or speaks of more than there is.
    pub fn decode_zero_copy(buf: &[u8]) -> (r: Result<Self, ProtocolError>)
        ensures
            match r {
                Ok(p) => Frame::parse(buf@) == Some(p@) && p@.consistent(),
                Err(e) => Frame::parse(buf@) is None && e is Framing,
            },
    {
        if buf.len() < FRAME_HEADER_LEN {
            return Err(ProtocolError::Framing(owned("frame too short")));
        }
        let header = match FrameHeader::decode(buf) {
            Ok(h) => h,
            Err(e) => {
                return Err(e);
            },
        };
        let payload_end: u64 = FRAME_HEADER_LEN as u64 + header.payload_len as u64;
        let expected: u64 = payload_end + header.pad_len as u64;
        if (buf.len() as u64) < expected {
            return Err(ProtocolError::Framing(owned("frame body truncated")));
        }
        Ok(
            FramedPacket {
                header,
                payload: copy_range(buf, FRAME_HEADER_LEN, payload_end as usize),
                padding: copy_range(buf, payload_end as usize, expected as usize),
            },
        )
    }
}

/// A header survives being written and read, whatever follows it.
pub proof fn header_round_trips(h: FrameHeader, rest: Seq<u8>)
    ensures
        header_of(header_bytes(h) + rest) == Some(h),
{
    let b = header_bytes(h) + rest;
    assert(b.subrange(4, 6) =~= be16(h.stream_id as int));
    assert(b.subrange(6, 10) =~= be32(h.payload_len as int));
    assert(b.subrange(10, 12) =~= be16(h.pad_len as int));
    lemma_be16(b, 4, h.stream_id as int);
    lemma_be32(b, 6, h.payload_len as int);
    lemma_be16(b, 10, h.pad_len as int);
}

/// A frame whose header states its sizes survives being written and read,
/// whatever follows it.
pub proof fn frame_round_trips(f: Frame, rest: Seq<u8>)
    requires
        f.consistent(),
    ensures
        Frame::parse(f.bytes() + rest) == Some(f),
{
    let b = f.bytes() + rest;
    let h = header_bytes(f.header);
    assert(b =~= h + (f.payload + f.padding + rest));
    header_round_trips(f.header, f.payload + f.padding + rest);
    assert(h.len() == 12);
    assert(b.subrange(12, 12int + f.payload.len()) =~= f.payload);
    assert(b.subrange(12int + f.payload.len(), 12int + f.payload.len() + f.padding.len()) =~= f.padding);
}

/// A header is twelve bytes: the version, the number of the kind, two zeros, and the stream, the
/// length of the payload and that of the padding, most significant byte first.
pub proof fn headers_have_their_layout(h: FrameHeader)
    ensures
        header_bytes(h).len() == 12,
        header_bytes(h)[0] == h.version,
        header_bytes(h)[1] == (match h.kind {
            FrameKind::Handshake => 1u8,
            FrameKind::Data => 2u8,
            FrameKind::Close => 3u8,
            FrameKind::KeepAlive => 4u8,
            FrameKind::Nack => 5u8,
            FrameKind::Ack => 6u8,
        }),
        header_bytes(h)[2] == 0 && header_bytes(h)[3] == 0,
        header_bytes(h)[4] * 256 + header_bytes(h)[5] == h.stream_id,
        header_bytes(h)[6] * 0x100_0000 + header_bytes(h)[7] * 0x1_0000 + header_bytes(h)[8] * 0x100 + header_bytes(h)[9]
            == h.payload_len,
        header_bytes(h)[10] * 256 + header_bytes(h)[11] == h.pad_len,
{
    reveal(be32);
    let b = header_bytes(h);
    let p = h.payload_len as int;
    assert(be32(p) =~= seq![
        (p / 0x1_0000 / 256) as u8,
        (p / 0x1_0000 % 256) as u8,
        (p % 0x1_0000 / 256) as u8,
        (p % 0x1_0000 % 256) as u8,
    ]);
    assert(b[6] == be32(p)[0] && b[7] == be32(p)[1] && b[8] == be32(p)[2] && b[9] == be32(p)[3]);
    assert(b[4] == be16(h.stream_id as int)[0] && b[5] == be16(h.stream_id as int)[1]);
    assert(b[10] == be16(h.pad_len as int)[0] && b[11] == be16(h.pad_len as int)[1]);
}

/// A frame that is cut short is none, and neither is one whose kind has no number.
pub proof fn broken_frames_are_refused(f: Frame, buf: Seq<u8>, k: int)
    requires
        f.consistent(),
        0 <= k < f.bytes().len(),
    ensures
        Frame::parse(f.bytes().take(k)) is None,
        buf.len() >= 2 && (buf[1] == 0 || buf[1] > 6) ==> Frame::parse(buf) is None,
        buf.len() < 12 ==> Frame::parse(buf) is None,
{
    reveal(be32);
    let whole = f.bytes();
    let cut = whole.take(k);
    if k >= 12 {
        frame_round_trips(f, Seq::empty());
        assert(whole + Seq::<u8>::empty() =~= whole);
        header_round_trips(f.header, cut.skip(12));
        assert(header_bytes(f.header) + cut.skip(12) =~= cut);
        assert(header_of(cut) == Some(f.header));
    }
}

} // verus!
