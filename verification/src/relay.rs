//! Messages of the relay protocol: what clients ask of the server over one
//! stream of a session, and what it answers.

use vstd::prelude::*;
use vstd::slice::slice_subrange;
use vstd::utf8::encode_utf8;

use crate::bytes::{
    be16, be64, copy_of, copy_range, get_u16, get_u64, lemma_be16, lemma_be64, put_slice, put_u16, put_u64, u16_at, u64_at,
};
use crate::text::{lemma_text_of_encoded, text_from, text_of};

verus! {

broadcast use crate::bytes::group_big_endian;

#[derive(Debug, Clone)]
pub enum RelayMessage {
    Connect(String),
    Data(Vec<u8>),
    KeepAlive,
    Close,
    ConnectOk,
    Error(String),
    Ping(u64),
    Pong(u64),
    UdpAssociate,
    UdpData(String, Vec<u8>),
}

/// What a message says.
#[verifier::ext_equal]
pub enum Message {
    Connect(Seq<char>),
    Data(Seq<u8>),
    KeepAlive,
    Close,
    ConnectOk,
    Error(Seq<char>),
    Ping(u64),
    Pong(u64),
    UdpAssociate,
    UdpData(Seq<char>, Seq<u8>),
}

/// Why bytes are no message.
#[derive(Debug, Clone, Copy, PartialEq, Eq, Structural)]
pub enum RelayError {
    /// There are no bytes.
    Empty,
    /// The length of the payload is missing.
    LengthMissing,
    /// The payload is shorter than its length says.
    Truncated,
    /// A text is not UTF-8.
    InvalidUtf8,
    /// A ping or pong does not hold eight bytes.
    InvalidTimestamp,
    /// A datagram message is shorter than its lengths say.
    InvalidUdpData,
    /// No message has this tag.
    UnknownType(u8),
}

impl View for RelayMessage {
    type V = Message;

    open spec fn view(&self) -> Message {
        match self {
            RelayMessage::Connect(a) => Message::Connect(a@),
            RelayMessage::Data(d) => Message::Data(d@),
            RelayMessage::KeepAlive => Message::KeepAlive,
            RelayMessage::Close => Message::Close,
            RelayMessage::ConnectOk => Message::ConnectOk,
            RelayMessage::Error(e) => Message::Error(e@),
            RelayMessage::Ping(t) => Message::Ping(*t),
            RelayMessage::Pong(t) => Message::Pong(*t),
            RelayMessage::UdpAssociate => Message::UdpAssociate,
            RelayMessage::UdpData(a, d) => Message::UdpData(a@, d@),
        }
    }
}

/// The part of a payload that a 16-bit length can speak of.
pub open spec fn fitting(payload: Seq<u8>) -> Seq<u8> {
    if payload.len() > 0xffff {
        payload.subrange(0, 0xffff)
    } else {
        payload
    }
}

/// A tag, a length and as much of the payload as the length can speak of.
pub open spec fn with_len(tag: u8, payload: Seq<u8>) -> Seq<u8> {
    seq![tag] + be16(fitting(payload).len() as int) + fitting(payload)
}

/// The payload behind a length at the start of `input`.
pub open spec fn payload_of(input: Seq<u8>) -> Result<Seq<u8>, RelayError> {
    if input.len() < 2 {
        Err(RelayError::LengthMissing)
    } else if input.len() < 2 + u16_at(input, 0) {
        Err(RelayError::Truncated)
    } else {
        Ok(input.subrange(2, 2 + u16_at(input, 0)))
    }
}

impl Message {
    /// The bytes of a message. A datagram message writes both parts whole, and
    /// its lengths modulo 65536.
    pub open spec fn bytes(self) -> Seq<u8> {
        match self {
            Message::Connect(a) => with_len(1, encode_utf8(a)),
            Message::Data(d) => with_len(2, d),
            Message::KeepAlive => seq![3u8],
            Message::Close => seq![4u8],
            Message::ConnectOk => seq![5u8],
            Message::Error(e) => with_len(6, encode_utf8(e)),
            Message::Ping(t) => with_len(7, be64(t as int)),
            Message::Pong(t) => with_len(8, be64(t as int)),
            Message::UdpAssociate => seq![9u8],
            Message::UdpData(a, d) => seq![10u8] + be16((encode_utf8(a).len() % 0x1_0000) as int) + encode_utf8(a) + be16(
                (d.len() % 0x1_0000) as int,
            ) + d,
        }
    }

    /// Every part is short enough for its length.
    pub open spec fn fits(self) -> bool {
        match self {
            Message::Connect(a) => encode_utf8(a).len() <= 0xffff,
            Message::Data(d) => d.len() <= 0xffff,
            Message::Error(e) => encode_utf8(e).len() <= 0xffff,
            Message::UdpData(a, d) => encode_utf8(a).len() <= 0xffff && d.len() <= 0xffff,
            _ => true,
        }
    }

    /// The message that bytes stand for; what follows it is ignored.
    pub open spec fn parse(input: Seq<u8>) -> Result<Message, RelayError> {
        if input.len() == 0 {
            Err(RelayError::Empty)
        } else {
            let tag = input[0];
            let rest = input.subrange(1, input.len() as int);
            if tag == 1 || tag == 6 {
                match payload_of(rest) {
                    Ok(p) => match text_of(p) {
                        Some(t) => Ok(
                            if tag == 1 {
                                Message::Connect(t)
                            } else {
                                Message::Error(t)
                            },
                        ),
                        None => Err(RelayError::InvalidUtf8),
                    },
                    Err(e) => Err(e),
                }
            } else if tag == 2 {
                match payload_of(rest) {
                    Ok(p) => Ok(Message::Data(p)),
                    Err(e) => Err(e),
                }
            } else if tag == 3 {
                Ok(Message::KeepAlive)
            } else if tag == 4 {
                Ok(Message::Close)
            } else if tag == 5 {
                Ok(Message::ConnectOk)
            } else if tag == 7 || tag == 8 {
                match payload_of(rest) {
                    Ok(p) => if p.len() != 8 {
                        Err(RelayError::InvalidTimestamp)
                    } else {
                        Ok(
                            if tag == 7 {
                                Message::Ping(u64_at(p, 0) as u64)
                            } else {
                                Message::Pong(u64_at(p, 0) as u64)
                            },
                        )
                    },
                    Err(e) => Err(e),
                }
            } else if tag == 9 {
                Ok(Message::UdpAssociate)
            } else if tag == 10 {
                Message::parse_udp(input)
            } else {
                Err(RelayError::UnknownType(tag))
            }
        }
    }

    /// The datagram message that bytes stand for.
    pub open spec fn parse_udp(input: Seq<u8>) -> Result<Message, RelayError> {
        if input.len() < 3 || input.len() < 3 + u16_at(input, 1) + 2 {
            Err(RelayError::InvalidUdpData)
        } else {
            let at = 3 + u16_at(input, 1);
            match text_of(input.subrange(3, at)) {
                None => Err(RelayError::InvalidUtf8),
                Some(addr) => if input.len() < at + 2 + u16_at(input, at) {
                    Err(RelayError::InvalidUdpData)
                } else {
                    Ok(Message::UdpData(addr, input.subrange(at + 2, at + 2 + u16_at(input, at))))
                },
            }
        }
    }
}

impl RelayMessage {
    /// The bytes of the message.
    pub fn encode(&self) -> (out: Vec<u8>)
        ensures
            out@ == self@.bytes(),
    {
        match self {
            RelayMessage::Connect(addr) => encode_with_len(1, addr.as_str().as_bytes()),
            RelayMessage::Data(data) => encode_with_len(2, data),
            RelayMessage::KeepAlive => vec![3u8],
            RelayMessage::Close => vec![4u8],
            RelayMessage::ConnectOk => vec![5u8],
            RelayMessage::Error(msg) => encode_with_len(6, msg.as_str().as_bytes()),
            RelayMessage::Ping(ts) => {
                let mut b: Vec<u8> = Vec::new();
                put_u64(&mut b, *ts);
                assert(b@ =~= be64(*ts as int));
                encode_with_len(7, &b)
            },
            RelayMessage::Pong(ts) => {
                let mut b: Vec<u8> = Vec::new();
                put_u64(&mut b, *ts);
                assert(b@ =~= be64(*ts as int));
                encode_with_len(8, &b)
            },
            RelayMessage::UdpAssociate => vec![9u8],
            RelayMessage::UdpData(addr, data) => {
                let addr_bytes = addr.as_str().as_bytes();
                let mut buf: Vec<u8> = Vec::new();
                buf.push(10);
                put_u16(&mut buf, (addr_bytes.len() % 0x1_0000) as u16);
                put_slice(&mut buf, addr_bytes);
                put_u16(&mut buf, (data.len() % 0x1_0000) as u16);
                put_slice(&mut buf, data);
                assert(buf@ =~= self@.bytes());
                buf
            },
        }
    }

    /// Reads a message.
    pub fn decode(input: &[u8]) -> (r: Result<Self, RelayError>)
        ensures
            match r {
                Ok(m) => Message::parse(input@) == Ok::<Message, RelayError>(m@),
                Err(e) => Message::parse(input@) == Err::<Message, RelayError>(e),
            },
    {
        if input.len() == 0 {
            return Err(RelayError::Empty);
        }
        let tag: u8 = input[0];
        let rest = slice_subrange(input, 1, input.len());
        if tag == 1 || tag == 6 {
            match decode_with_len(rest) {
                Ok(p) => match text_from(p) {
                    Some(t) => if tag == 1 {
                        Ok(RelayMessage::Connect(t))
                    } else {
                        Ok(RelayMessage::Error(t))
                    },
                    None => Err(RelayError::InvalidUtf8),
                },
                Err(e) => Err(e),
            }
        } else if tag == 2 {
            match decode_with_len(rest) {
                Ok(p) => Ok(RelayMessage::Data(copy_of(p))),
                Err(e) => Err(e),
            }
        } else if tag == 3 {
            Ok(RelayMessage::KeepAlive)
        } else if tag == 4 {
            Ok(RelayMessage::Close)
        } else if tag == 5 {
            Ok(RelayMessage::ConnectOk)
        } else if tag == 7 || tag == 8 {
            match decode_with_len(rest) {
                Ok(p) => if p.len() != 8 {
                    Err(RelayError::InvalidTimestamp)
                } else if tag == 7 {
                    Ok(RelayMessage::Ping(get_u64(p, 0)))
                } else {
                    Ok(RelayMessage::Pong(get_u64(p, 0)))
                },
                Err(e) => Err(e),
            }
        } else if tag == 9 {
            Ok(RelayMessage::UdpAssociate)
        } else if tag == 10 {
            decode_udp(input)
        } else {
            Err(RelayError::UnknownType(tag))
        }
    }
}

fn decode_udp(input: &[u8]) -> (r: Result<RelayMessage, RelayError>)
    ensures
        match r {
            Ok(m) => Message::parse_udp(input@) == Ok::<Message, RelayError>(m@),
            Err(e) => Message::parse_udp(input@) == Err::<Message, RelayError>(e),
        },
{
    if input.len() < 3 {
        return Err(RelayError::InvalidUdpData);
    }
    let addr_len: usize = get_u16(input, 1) as usize;
    if input.len() - 3 < addr_len + 2 {
        return Err(RelayError::InvalidUdpData);
    }
    let at: usize = 3 + addr_len;
    match text_from(slice_subrange(input, 3, at)) {
        None => Err(RelayError::InvalidUtf8),
        Some(addr) => {
            let data_len: usize = get_u16(input, at) as usize;
            if input.len() - at - 2 < data_len {
                return Err(RelayError::InvalidUdpData);
            }
            Ok(RelayMessage::UdpData(addr, copy_range(input, at + 2, at + 2 + data_len)))
        },
    }
}

fn encode_with_len(tag: u8, payload: &[u8]) -> (out: Vec<u8>)
    ensures
        out@ == with_len(tag, payload@),
{
    let len: usize = if payload.len() > 0xffff {
        0xffff
    } else {
        payload.len()
    };
    let mut out: Vec<u8> = Vec::new();
    out.push(tag);
    put_u16(&mut out, len as u16);
    put_slice(&mut out, slice_subrange(payload, 0, len));
    proof {
        if payload@.len() <= 0xffff {
            assert(payload@.subrange(0, payload@.len() as int) =~= payload@);
        }
        assert(out@ =~= with_len(tag, payload@));
    }
    out
}

fn decode_with_len<'a>(input: &'a [u8]) -> (r: Result<&'a [u8], RelayError>)
    ensures
        match r {
            Ok(p) => payload_of(input@) == Ok::<Seq<u8>, RelayError>(p@),
            Err(e) => payload_of(input@) == Err::<Seq<u8>, RelayError>(e),
        },
{
    if input.len() < 2 {
        return Err(RelayError::LengthMissing);
    }
    let len: usize = get_u16(input, 0) as usize;
    if input.len() - 2 < len {
        return Err(RelayError::Truncated);
    }
    Ok(slice_subrange(input, 2, 2 + len))
}

proof fn lemma_payload_of(tag: u8, p: Seq<u8>, rest: Seq<u8>)
    ensures
        ({
            let b = with_len(tag, p) + rest;
            &&& b.len() > 0
            &&& b[0] == tag
            &&& payload_of(b.subrange(1, b.len() as int)) == Ok::<Seq<u8>, RelayError>(fitting(p))
        }),
{
    let f = fitting(p);
    let b = with_len(tag, p) + rest;
    let t = b.subrange(1, b.len() as int);
    assert(t.subrange(0, 2) =~= be16(f.len() as int));
    lemma_be16(t, 0, f.len() as int);
    assert(t.subrange(2, 2int + f.len()) =~= f);
}

#[verifier::spinoff_prover]
#[verifier::rlimit(60)]
proof fn lemma_udp_round_trip(a: Seq<char>, d: Seq<u8>, rest: Seq<u8>)
    requires
        encode_utf8(a).len() <= 0xffff,
        d.len() <= 0xffff,
    ensures
        ({
            let b = Message::UdpData(a, d).bytes() + rest;
            &&& b.len() > 0
            &&& b[0] == 10
            &&& Message::parse_udp(b) == Ok::<Message, RelayError>(Message::UdpData(a, d))
        }),
{
    let e = encode_utf8(a);
    let n = e.len() as int;
    let b = Message::UdpData(a, d).bytes() + rest;
    assert(b.subrange(1, 3) =~= be16(n));
    lemma_be16(b, 1, n);
    assert(b.subrange(3, 3 + n) =~= e);
    lemma_text_of_encoded(a);
    assert(b.subrange(3 + n, 5 + n) =~= be16(d.len() as int));
    lemma_be16(b, 3 + n, d.len() as int);
    assert(b.subrange(5 + n, 5 + n + d.len()) =~= d);
}

proof fn lemma_text_round_trip(tag: u8, a: Seq<char>, rest: Seq<u8>)
    requires
        tag == 1 || tag == 6,
        encode_utf8(a).len() <= 0xffff,
    ensures
        Message::parse(with_len(tag, encode_utf8(a)) + rest) == Ok::<Message, RelayError>(
            if tag == 1 {
                Message::Connect(a)
            } else {
                Message::Error(a)
            },
        ),
{
    lemma_payload_of(tag, encode_utf8(a), rest);
    lemma_text_of_encoded(a);
}

proof fn lemma_time_round_trip(tag: u8, t: u64, rest: Seq<u8>)
    requires
        tag == 7 || tag == 8,
    ensures
        Message::parse(with_len(tag, be64(t as int)) + rest) == Ok::<Message, RelayError>(
            if tag == 7 {
                Message::Ping(t)
            } else {
                Message::Pong(t)
            },
        ),
{
    let p = be64(t as int);
    lemma_payload_of(tag, p, rest);
    assert(p.subrange(0, 8) =~= p);
    lemma_be64(p, 0, t as int);
}

/// A message whose parts fit their lengths survives being written and read,
/// whatever follows it.
pub proof fn relay_message_round_trips(m: Message, rest: Seq<u8>)
    requires
        m.fits(),
    ensures
        Message::parse(m.bytes() + rest) == Ok::<Message, RelayError>(m),
{
    match m {
        Message::Connect(a) => lemma_text_round_trip(1, a, rest),
        Message::Data(d) => long_data_is_cut(d, rest),
        Message::Error(e) => lemma_text_round_trip(6, e, rest),
        Message::Ping(t) => lemma_time_round_trip(7, t, rest),
        Message::Pong(t) => lemma_time_round_trip(8, t, rest),
        Message::UdpData(a, d) => lemma_udp_round_trip(a, d, rest),
        Message::KeepAlive => {
            assert((m.bytes() + rest)[0] == 3);
        },
        Message::Close => {
            assert((m.bytes() + rest)[0] == 4);
        },
        Message::ConnectOk => {
            assert((m.bytes() + rest)[0] == 5);
        },
        Message::UdpAssociate => {
            assert((m.bytes() + rest)[0] == 9);
        },
    }
}

/// Of data that is too long for its length, the first 65535 bytes arrive.
pub proof fn long_data_is_cut(d: Seq<u8>, rest: Seq<u8>)
    ensures
        Message::parse(Message::Data(d).bytes() + rest) == Ok::<Message, RelayError>(Message::Data(fitting(d))),
{
    lemma_payload_of(2, d, rest);
}

/// How messages are written: a number for the kind, and behind it what the kind holds, with its
/// length in two bytes.
pub proof fn messages_are_written_by_number(m: Message)
    requires
        m.fits(),
    ensures
        m.bytes().len() > 0,
        m.bytes()[0] == match m {
            Message::Connect(_) => 1u8,
            Message::Data(_) => 2u8,
            Message::KeepAlive => 3u8,
            Message::Close => 4u8,
            Message::ConnectOk => 5u8,
            Message::Error(_) => 6u8,
            Message::Ping(_) => 7u8,
            Message::Pong(_) => 8u8,
            Message::UdpAssociate => 9u8,
            Message::UdpData(_, _) => 10u8,
        },
        m matches Message::Data(d) ==> m.bytes().len() == 3 + d.len() && u16_at(m.bytes(), 1) == d.len()
            && m.bytes().subrange(3, m.bytes().len() as int) == d,
        m matches Message::Connect(a) ==> m.bytes().len() == 3 + encode_utf8(a).len() && u16_at(m.bytes(), 1)
            == encode_utf8(a).len() && m.bytes().subrange(3, m.bytes().len() as int) == encode_utf8(a),
        m matches Message::KeepAlive ==> m.bytes().len() == 1,
        m matches Message::Close ==> m.bytes().len() == 1,
{
    let b = m.bytes();
    match m {
        Message::Data(d) => {
            assert(b.subrange(1, 3) =~= be16(d.len() as int));
            crate::bytes::lemma_be16(b, 1, d.len() as int);
            assert(b.subrange(3, b.len() as int) =~= d);
        },
        Message::Connect(a) => {
            let t = encode_utf8(a);
            assert(b.subrange(1, 3) =~= be16(t.len() as int));
            crate::bytes::lemma_be16(b, 1, t.len() as int);
            assert(b.subrange(3, b.len() as int) =~= t);
        },
        _ => {},
    }
}

/// Bytes that are no message are refused: none at all, a number that no kind has, and a payload
/// that is shorter than its length says.
pub proof fn other_bytes_are_no_message(b: Seq<u8>)
    ensures
        b.len() == 0 ==> Message::parse(b) == Err::<Message, RelayError>(RelayError::Empty),
        b.len() > 0 && (b[0] == 0 || b[0] > 10) ==> Message::parse(b) == Err::<Message, RelayError>(
            RelayError::UnknownType(b[0]),
        ),
        b.len() > 2 && b[0] == 2 && b.len() < 3 + u16_at(b, 1) ==> Message::parse(b) == Err::<Message, RelayError>(
            RelayError::Truncated,
        ),
        1 <= b.len() <= 2 && b[0] == 2 ==> Message::parse(b) == Err::<Message, RelayError>(RelayError::LengthMissing),
{
    if b.len() > 2 {
        let rest = b.subrange(1, b.len() as int);
        assert(u16_at(rest, 0) == u16_at(b, 1)) by {
            reveal(u16_at);
        }
    }
}

} // verus!
