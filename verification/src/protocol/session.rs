//! What a session does, over mathematical values: its state, the packets it
//! builds and what each packet and tick does to it.

use vstd::prelude::*;

use crate::bytes::{be16, be32, be64, u16_at, u32_at, u64_at};
use crate::congestion::{larger, less, smaller, CcState};
use crate::crypto::aead::{aead_open, aead_seal, packet_nonce};
use crate::crypto::noise::{keys_of, noise_answer, noise_greeting, Hand, NoiseRole, MESSAGE_OVERHEAD};
use crate::crypto::obfuscation::{deobfuscated, obfuscated};
use crate::framing::frame::Frame;
use crate::framing::{AdaptivePadder, FrameHeader, FrameKind};
use crate::protocol::ack::{ack_payload, parse_ranges};
use crate::protocol::receive::{nonces, Item, Receiving};
use crate::protocol::sent::{
    acknowledged_bytes, acknowledged_rtt, alive, remembered, requested, round, unacknowledged, Sent,
};
use crate::time::capped;

verus! {

/// A missing packet is given up after this many timeouts without progress …
pub const GAP_RECOVERY_RTO_MULTIPLIER: u64 = 8;

/// … but not before two seconds …
pub const GAP_RECOVERY_MIN_NANOS: u64 = 2_000_000_000;

/// … and not after ten.
pub const GAP_RECOVERY_MAX_NANOS: u64 = 10_000_000_000;

/// The shortest time between two requests for missing packets.
pub const NACK_FLOOR_NANOS: u64 = 30_000_000;

/// What a packet that is no longer known is taken to have held.
pub const EVICTED_PACKET_BYTES: u64 = 1200;

/// Room for a handshake message.
pub const HANDSHAKE_BUFFER: usize = 1024;

#[derive(Debug, Clone, Copy, PartialEq, Eq, Structural)]
pub enum OstpState {
    Init,
    Handshaking,
    Established,
    Closing,
    Closed,
}

/// The kinds of error.
pub enum Fault {
    State,
    Crypto,
    Framing,
}

/// One thing to do.
pub enum Act {
    /// Put a datagram on the wire.
    Send(Seq<u8>),
    /// Hand data of a stream to the application.
    Deliver(u16, Seq<u8>),
    /// The peer's handshake payload, and the answer to send.
    Greeted(Seq<u8>, Option<Seq<u8>>),
    Nothing,
}

/// What happens to a session.
pub enum Event {
    Start,
    Inbound(Seq<u8>),
    Outbound(u16, Seq<u8>),
    Close,
    Tick,
}

/// The state of a session. Times are in nanoseconds.
#[verifier::ext_equal]
pub struct Session {
    pub role: NoiseRole,
    pub state: OstpState,
    pub session_id: u32,
    pub obfuscation_key: Seq<u8>,
    pub send_key: Option<Seq<u8>>,
    pub recv_key: Option<Seq<u8>>,
    pub send_nonce: u64,
    pub recv: Receiving,
    pub sent: Seq<Sent>,
    pub max_sent: int,
    pub ack_pending: bool,
    pub last_ack: int,
    pub last_nack: int,
    pub cc: CcState,
    pub ack_delay: int,
    pub rto: int,
    pub max_retries: int,
    pub padder: AdaptivePadder,
    pub pad_min: int,
    pub pad_max: int,
    pub greeting: Seq<u8>,
    pub psk: Seq<u8>,
    pub hand: Hand,
}

/// A padding no longer than there is room for.
pub open spec fn fitted(pad: Seq<u8>, room: int) -> Seq<u8> {
    if pad.len() <= room {
        pad
    } else {
        pad.subrange(0, room)
    }
}

/// The frame of a payload.
pub open spec fn frame_of(stream: u16, kind: FrameKind, payload: Seq<u8>, pad: Seq<u8>) -> Frame {
    Frame {
        header: FrameHeader {
            version: 1,
            kind,
            stream_id: stream,
            payload_len: (payload.len() % 0x1_0000_0000) as u32,
            pad_len: pad.len() as u16,
        },
        payload,
        padding: pad,
    }
}

/// A data packet before its header is masked.
pub open spec fn data_packet(session_id: u32, nonce: u64, ciphertext: Seq<u8>) -> Seq<u8> {
    be32(session_id as int) + be64(nonce as int) + ciphertext
}

/// A handshake packet before its header is masked.
pub open spec fn handshake_packet(session_id: u32, noise: Seq<u8>, pad: Seq<u8>) -> Seq<u8> {
    be32(session_id as int) + be16(noise.len() as int) + noise + pad
}

/// Drops a sole `Nothing`.
pub open spec fn normal(acts: Seq<Act>) -> Seq<Act> {
    if acts.len() == 1 && acts[0] is Nothing {
        Seq::empty()
    } else {
        acts
    }
}

pub open spec fn delivered(items: Seq<Item>) -> Seq<Act> {
    Seq::new(
        items.len(),
        |i: int|
            match items[i].data {
                Some((stream, payload)) => Act::Deliver(stream, payload),
                None => Act::Nothing,
            },
    )
}

pub open spec fn sends(datagrams: Seq<Seq<u8>>) -> Seq<Act> {
    Seq::new(datagrams.len(), |i: int| Act::Send(datagrams[i]))
}

pub open spec fn send_if(d: Option<Seq<u8>>) -> Seq<Act> {
    match d {
        Some(b) => seq![Act::Send(b)],
        None => Seq::empty(),
    }
}

impl Session {
    // ── Packets that go out ──────────────────────────────────────────────────

    /// Packet `nonce` went out at `now`.
    pub open spec fn noted(self, nonce: u64, bytes: Seq<u8>, reliable: bool, now: int) -> Session {
        Session {
            cc: if reliable {
                self.cc.sent(bytes.len() as int)
            } else {
                self.cc
            },
            sent: remembered(self.sent, Sent { nonce, bytes, last_sent: now, retries: 0, reliable }, self.max_sent),
            ..self
        }
    }

    /// Builds the next packet, padded with `pad` as far as there is room.
    pub open spec fn built(
        self,
        stream: u16,
        kind: FrameKind,
        payload: Seq<u8>,
        reliable: bool,
        pad: Seq<u8>,
        now: int,
    ) -> (Session, Result<Seq<u8>, Fault>) {
        let n = self.send_nonce;
        match self.send_key {
            None => (self, Err(Fault::State)),
            Some(key) => if n == u64::MAX {
                (self, Err(Fault::Crypto))
            } else {
                let after = Session { send_nonce: (n + 1) as u64, ..self };
                let frame = frame_of(stream, kind, payload, fitted(pad, self.padder.room(payload.len() as int)));
                match aead_seal(key, packet_nonce(n as int), be32(self.session_id as int), frame.bytes()) {
                    None => (after, Err(Fault::Crypto)),
                    Some(c) => {
                        let d = obfuscated(data_packet(self.session_id, n, c), self.obfuscation_key, false);
                        (after.noted(n, d, reliable, now), Ok(d))
                    },
                }
            },
        }
    }

    /// A request for the packet that is expected next.
    pub open spec fn nack_built(self, pad: Seq<u8>, now: int) -> (Session, Result<Seq<u8>, Fault>) {
        self.built(0, FrameKind::Nack, be64(self.recv.expected as int), false, pad, now)
    }

    /// An acknowledgement of everything received, where anything was.
    pub open spec fn ack_built(self, pad: Seq<u8>, now: int) -> (Session, Result<Option<Seq<u8>>, Fault>) {
        let payload = ack_payload(self.recv.expected, nonces(self.recv.held));
        if payload.len() == 0 {
            (Session { ack_pending: false, ..self }, Ok(None))
        } else {
            match self.built(0, FrameKind::Ack, payload, false, pad, now) {
                (t, Ok(d)) => (Session { ack_pending: false, last_ack: now, ..t }, Ok(Some(d))),
                (t, Err(e)) => (t, Err(e)),
            }
        }
    }

    /// An acknowledgement, where one is owed and the last is long enough ago.
    pub open spec fn ack_if_due(self, pad: Seq<u8>, now: int) -> (Session, Result<Option<Seq<u8>>, Fault>) {
        if !self.ack_pending || less(now, self.last_ack) < self.ack_delay {
            (self, Ok(None))
        } else {
            self.ack_built(pad, now)
        }
    }

    // ── Packets that come in ─────────────────────────────────────────────────

    /// The peer asks for packet `nonce`: it goes out again, and counts as lost.
    pub open spec fn asked(self, nonce: u64, now: int) -> (Session, Option<Seq<u8>>) {
        let (h, b) = requested(self.sent, nonce, now);
        (
            Session {
                sent: h,
                cc: self.cc.lost(
                    match b {
                        Some(bytes) => bytes.len() as int,
                        None => EVICTED_PACKET_BYTES as int,
                    },
                ),
                ..self
            },
            b,
        )
    }

    /// The peer acknowledges the ranges.
    pub open spec fn acknowledged(self, ranges: Seq<(u64, u64)>, now: int) -> Session {
        let bytes = capped(acknowledged_bytes(self.sent, ranges));
        Session {
            sent: unacknowledged(self.sent, ranges),
            cc: if bytes > 0 {
                self.cc.acked(bytes, acknowledged_rtt(self.sent, ranges, now), now)
            } else {
                self.cc
            },
            ..self
        }
    }

    /// How long to wait between two requests for missing packets while packets are held.
    pub open spec fn nack_cooldown(self) -> int {
        larger(self.cc.rto() / 2, NACK_FLOOR_NANOS as int)
    }

    /// How long a missing packet is waited for.
    pub open spec fn gap_timeout(self) -> int {
        smaller(
            larger(capped(self.cc.rto() * GAP_RECOVERY_RTO_MULTIPLIER), GAP_RECOVERY_MIN_NANOS as int),
            GAP_RECOVERY_MAX_NANOS as int,
        )
    }

    /// Asks for the missing packet, unless the last request is less than `wait` ago.
    pub open spec fn nack_after(self, wait: int, pad: Seq<u8>, now: int) -> (Session, Option<Seq<u8>>) {
        if less(now, self.last_nack) >= wait {
            match (Session { last_nack: now, ..self }).nack_built(pad, now) {
                (t, Ok(d)) => (t, Some(d)),
                (t, Err(_)) => (t, None),
            }
        } else {
            (self, None)
        }
    }

    /// Asks for the missing packet after one that was held, unless that was the one that is
    /// expected or the last request is too recent.
    pub open spec fn nack_if_due(self, in_order: bool, pad: Seq<u8>, now: int) -> (Session, Option<Seq<u8>>) {
        if in_order {
            (self, None)
        } else {
            self.nack_after(self.nack_cooldown(), pad, now)
        }
    }

    /// Packet `nonce` gives the application `item`; `resent` goes out again.
    pub open spec fn ordered(
        self,
        nonce: u64,
        item: Item,
        resent: Option<Seq<u8>>,
        nack_pad: Seq<u8>,
        ack_pad: Seq<u8>,
        now: int,
    ) -> (Session, Result<Seq<Act>, Fault>) {
        let (recv, taken) = self.recv.taken(nonce, item, now);
        let a = Session { recv, ..self };
        match taken {
            None => (a, Err(Fault::Crypto)),
            Some(items) => {
                let (b, nack) = a.nack_if_due(nonce == self.recv.expected, nack_pad, now);
                match b.ack_if_due(ack_pad, now) {
                    (c, Ok(ack)) => (
                        c,
                        Ok(normal(send_if(resent) + send_if(nack) + send_if(ack) + delivered(items))),
                    ),
                    (c, Err(e)) => (c, Err(e)),
                }
            },
        }
    }

    /// An authentic packet holds frame `f`: what it does before its turn comes.
    /// Acknowledgements and requests act at once.
    pub open spec fn noticed(self, f: Frame, now: int) -> (Session, Result<Option<Seq<u8>>, Fault>) {
        match f.header.kind {
            FrameKind::Nack => if f.payload.len() >= 8 {
                let (t, b) = self.asked(u64_at(f.payload, 0) as u64, now);
                (t, Ok(b))
            } else {
                (self, Ok(None))
            },
            FrameKind::Ack => match parse_ranges(f.payload) {
                Some(ranges) => (self.acknowledged(ranges, now), Ok(None)),
                None => (self, Err(Fault::Framing)),
            },
            FrameKind::Data | FrameKind::KeepAlive => (Session { ack_pending: true, ..self }, Ok(None)),
            FrameKind::Close => (Session { state: OstpState::Closed, ack_pending: true, ..self }, Ok(None)),
            FrameKind::Handshake => (self, Ok(None)),
        }
    }

    /// Packet `nonce` held frame `f`.
    pub open spec fn opened(
        self,
        nonce: u64,
        f: Frame,
        nack_pad: Seq<u8>,
        ack_pad: Seq<u8>,
        now: int,
    ) -> (Session, Result<Seq<Act>, Fault>) {
        match self.noticed(f, now) {
            (t, Err(e)) => (t, Err(e)),
            (t, Ok(resent)) => t.ordered(nonce, item_of(f), resent, nack_pad, ack_pad, now),
        }
    }

    /// A data packet with its header unmasked.
    pub open spec fn frame_in(self, raw: Seq<u8>, nack_pad: Seq<u8>, ack_pad: Seq<u8>, now: int) -> (
        Session,
        Result<Seq<Act>, Fault>,
    ) {
        let n = u64_at(raw, 4) as u64;
        if raw.len() < 12 {
            (self, Err(Fault::Framing))
        } else if n < self.recv.expected {
            match self.ack_built(ack_pad, now) {
                (t, Ok(ack)) => (t, Ok(send_if(ack))),
                (t, Err(e)) => (t, Err(e)),
            }
        } else if n > self.recv.furthest() {
            let (t, d) = self.nack_after(NACK_FLOOR_NANOS as int, nack_pad, now);
            (t, Ok(send_if(d)))
        } else {
            match self.recv_key {
                None => (self, Err(Fault::State)),
                Some(key) => match aead_open(
                    key,
                    packet_nonce(n as int),
                    be32(self.session_id as int),
                    raw.subrange(12, raw.len() as int),
                ) {
                    None => (self, Err(Fault::Crypto)),
                    Some(p) => {
                        let a = Session { recv: self.recv.authenticated(n), ..self };
                        match Frame::parse(p) {
                            None => (a, Err(Fault::Framing)),
                            Some(f) => a.opened(n, f, nack_pad, ack_pad, now),
                        }
                    },
                },
            }
        }
    }

    /// A stalled session first gives up what is missing; what that releases is
    /// older than anything of this packet, and comes first. It is delivered also where
    /// this packet is refused.
    pub open spec fn data_in(self, raw: Seq<u8>, nack_pad: Seq<u8>, ack_pad: Seq<u8>, now: int) -> (
        Session,
        Result<Seq<Act>, Fault>,
    ) {
        let (recv, released) = self.recv.recovered(self.gap_timeout(), now);
        let a = Session { recv, ack_pending: self.ack_pending || released.len() > 0, ..self };
        match a.frame_in(raw, nack_pad, ack_pad, now) {
            (t, Ok(acts)) => (
                t,
                Ok(
                    if released.len() > 0 {
                        normal(delivered(released) + acts)
                    } else {
                        acts
                    },
                ),
            ),
            (t, Err(e)) => (
                t,
                if released.len() > 0 {
                    Ok(normal(delivered(released)))
                } else {
                    Err(e)
                },
            ),
        }
    }

    /// Time passed: an acknowledgement that is due, and packets that were not
    /// acknowledged in time.
    pub open spec fn ticked(self, ack_pad: Seq<u8>, now: int) -> (Session, Result<Seq<Act>, Fault>) {
        match self.ack_if_due(ack_pad, now) {
            (t, Err(e)) => (t, Err(e)),
            (t, Ok(ack)) => {
                let base_ms = larger(larger(t.cc.rto(), t.rto) / 1_000_000, 1);
                let r = round(alive(t.sent, smaller(t.max_retries + 2, 255)), t.cc.budget(), base_ms, now);
                (Session { sent: r.history, ..t }, Ok(send_if(ack) + sends(r.out)))
            },
        }
    }

    // ── The handshake ────────────────────────────────────────────────────────

    /// A datagram with a handshake message, and some padding within the range that the
    /// access key gives.
    pub open spec fn wraps(self, d: Seq<u8>, noise: Seq<u8>) -> bool {
        exists|pad: Seq<u8>|
            #![trigger handshake_packet(self.session_id, noise, pad)]
            self.pad_min <= pad.len() <= self.pad_max && d == obfuscated(
                handshake_packet(self.session_id, noise, pad),
                self.obfuscation_key,
                true,
            )
    }

    /// A first datagram, in which a responder with the same pre-shared key finds the
    /// greeting.
    pub open spec fn greets(self, d: Seq<u8>) -> bool {
        exists|noise: Seq<u8>| #[trigger]
            self.wraps(d, noise) && noise.len() == self.greeting.len() + MESSAGE_OVERHEAD && noise_greeting(
                self.psk,
                noise,
            ) == Some(self.greeting)
    }

    /// An answer to a first datagram.
    pub open spec fn answers(self, d: Seq<u8>) -> bool {
        exists|noise: Seq<u8>| #[trigger]
            self.wraps(d, noise) && noise.len() == self.greeting.len() + MESSAGE_OVERHEAD
    }

    /// Whether the greeting of this end fits into a handshake message.
    pub open spec fn can_greet(self) -> bool {
        self.greeting.len() + MESSAGE_OVERHEAD <= HANDSHAKE_BUFFER
    }

    /// The first step of the handshake leads to `after` with `outcome`.
    pub open spec fn starts(self, after: Session, outcome: Result<Seq<Act>, Fault>) -> bool {
        let begun = Session { state: OstpState::Handshaking, ..self };
        match self.role {
            NoiseRole::Responder => after == begun && outcome == Ok::<Seq<Act>, Fault>(Seq::empty()),
            NoiseRole::Initiator => if self.hand is Fresh && self.can_greet() {
                &&& after == (Session { hand: after.hand, ..begun })
                &&& after.hand is Asked
                &&& outcome matches Ok(acts) && acts.len() == 1 && (acts[0] matches Act::Send(d) && self.greets(d))
            } else {
                after == begun && outcome == Err::<Seq<Act>, Fault>(Fault::Crypto)
            },
        }
    }

    /// The session after the handshake, with the keys of the handshake in the order of its
    /// role.
    pub open spec fn established(self, after: Session) -> bool {
        exists|a: Seq<u8>, b: Seq<u8>|
            after == (Session {
                state: OstpState::Established,
                send_key: Some((#[trigger] keys_of(self.role, a, b)).0),
                recv_key: Some(keys_of(self.role, a, b).1),
                hand: Hand::Finished(a, b),
                ..self
            })
    }

    /// The payload that a responder which has read nothing yet finds in a handshake
    /// message.
    pub open spec fn hears(self, message: Seq<u8>) -> Option<Seq<u8>> {
        match noise_greeting(self.psk, message) {
            Some(p) if p.len() <= HANDSHAKE_BUFFER => Some(p),
            _ => None,
        }
    }

    /// A handshake packet with its header unmasked leads to `after` with
    /// `outcome`. A packet that is cut short is a framing error. A responder takes the
    /// first message that was made with its pre-shared key, and answers; an initiator
    /// takes the answer that its handshake accepts. Anything else is a cryptographic
    /// error.
    pub open spec fn shakes(self, raw: Seq<u8>, after: Session, outcome: Result<Seq<Act>, Fault>) -> bool {
        if raw.len() < 6 || raw.len() < 6 + u16_at(raw, 4) {
            after == self && outcome == Err::<Seq<Act>, Fault>(Fault::Framing)
        } else {
            let message = raw.subrange(6, 6 + u16_at(raw, 4));
            match (self.role, self.hand) {
                (NoiseRole::Responder, Hand::Fresh) => match self.hears(message) {
                    None => after == self && outcome == Err::<Seq<Act>, Fault>(Fault::Crypto),
                    Some(payload) => if self.can_greet() {
                        &&& self.established(after)
                        &&& outcome matches Ok(acts) && acts.len() == 1 && (acts[0] matches Act::Greeted(p, answer) && p
                            == payload && (answer matches Some(d) && self.answers(d)))
                    } else {
                        &&& after == (Session { hand: Hand::Heard(message), ..self })
                        &&& outcome == Err::<Seq<Act>, Fault>(Fault::Crypto)
                    },
                },
                (NoiseRole::Initiator, Hand::Asked(hs)) => match noise_answer(hs, message) {
                    Some(payload) if payload.len() <= HANDSHAKE_BUFFER => {
                        &&& self.established(after)
                        &&& outcome == Ok::<Seq<Act>, Fault>(seq![Act::Greeted(payload, None)])
                    },
                    _ => {
                        &&& after == (Session { hand: after.hand, ..self })
                        &&& after.hand is Asked
                        &&& outcome == Err::<Seq<Act>, Fault>(Fault::Crypto)
                    },
                },
                _ => after == self && outcome == Err::<Seq<Act>, Fault>(Fault::Crypto),
            }
        }
    }

    // ── Events ───────────────────────────────────────────────────────────────

    /// A datagram leads to `after` with `outcome`.
    pub open spec fn receives(
        self,
        datagram: Seq<u8>,
        now: int,
        after: Session,
        outcome: Result<Seq<Act>, Fault>,
    ) -> bool {
        let raw = deobfuscated(datagram, self.obfuscation_key, self.state is Handshaking);
        if raw.len() < 4 {
            after == self && outcome == Err::<Seq<Act>, Fault>(Fault::Framing)
        } else if u32_at(raw, 0) != self.session_id {
            after == self && outcome == Err::<Seq<Act>, Fault>(Fault::State)
        } else if self.state is Handshaking {
            self.shakes(raw, after, outcome)
        } else if self.state is Established || self.state is Closing {
            exists|p: Seq<u8>, q: Seq<u8>| (after, outcome) == #[trigger] self.data_in(raw, p, q, now)
        } else {
            after == self && outcome == Ok::<Seq<Act>, Fault>(Seq::empty())
        }
    }

    /// Builds a reliable packet; leads to `after` with `outcome`.
    pub open spec fn emits(
        self,
        stream: u16,
        kind: FrameKind,
        payload: Seq<u8>,
        now: int,
        after: Session,
        outcome: Result<Seq<Act>, Fault>,
    ) -> bool {
        exists|p: Seq<u8>|
            #![trigger self.built(stream, kind, payload, true, p, now)]
            {
                let (t, r) = self.built(stream, kind, payload, true, p, now);
                after == t && outcome == match r {
                    Ok(d) => Ok::<Seq<Act>, Fault>(seq![Act::Send(d)]),
                    Err(e) => Err::<Seq<Act>, Fault>(e),
                }
            }
    }

    /// An event leads to `after` with `outcome`.
    pub open spec fn steps(self, event: Event, now: int, after: Session, outcome: Result<Seq<Act>, Fault>) -> bool {
        let idle = Ok::<Seq<Act>, Fault>(Seq::empty());
        match (self.state, event) {
            (OstpState::Closed, _) => after == self && outcome == idle,
            (OstpState::Init, Event::Start) => self.starts(after, outcome),
            (OstpState::Init, Event::Inbound(d)) => (Session { state: OstpState::Handshaking, ..self }).receives(
                d,
                now,
                after,
                outcome,
            ),
            (_, Event::Inbound(d)) => self.receives(d, now, after, outcome),
            (OstpState::Established, Event::Outbound(stream, payload)) => self.emits(
                stream,
                FrameKind::Data,
                payload,
                now,
                after,
                outcome,
            ),
            (OstpState::Established, Event::Close) => (Session { state: OstpState::Closing, ..self }).emits(
                0,
                FrameKind::Close,
                Seq::empty(),
                now,
                after,
                outcome,
            ),
            (OstpState::Established, Event::Tick) | (OstpState::Closing, Event::Tick) => exists|p: Seq<u8>|
                (after, outcome) == #[trigger] self.ticked(p, now),
            (_, Event::Close) => after == (Session { state: OstpState::Closed, ..self }) && outcome == idle,
            _ => after == self && outcome == idle,
        }
    }
}

/// What a frame gives the application: the data of a data frame.
pub open spec fn item_of(f: Frame) -> Item {
    Item {
        data: if f.header.kind is Data {
            Some((f.header.stream_id, f.payload))
        } else {
            None
        },
    }
}

} // verus!
