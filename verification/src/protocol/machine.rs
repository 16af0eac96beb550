//! The state machine of one session.

use vstd::prelude::*;
use vstd::slice::slice_subrange;

use crate::bytes::{
    be32, be64, copy_of, copy_range, get_u16, get_u32, get_u64, lemma_be32, lemma_be64, put_slice, put_u16, put_u32,
    put_u64, u32_at, u64_at,
};
use crate::congestion::{larger, less, smaller, CongestionController};
use crate::crypto::aead::{aead_open, packet_nonce, SessionCipher};
use crate::crypto::noise::{keys_of, noise_greeting, Hand, NoiseRole, NoiseSession, MESSAGE_OVERHEAD};
use crate::crypto::obfuscation::{
    deobfuscate_packet_inplace, deobfuscated, deobfuscation_recovers_the_packet, obfuscate_packet_inplace, obfuscated,
};
use crate::framing::frame::Frame;
use crate::framing::padding::{random_bytes, random_up_to};
use crate::framing::{AdaptivePadder, FrameHeader, FrameKind, FramedPacket, PaddingStrategy};
use crate::protocol::ack::{build_ack_payload, parse_ack_ranges};
use crate::protocol::receive::{items, Delivery, ReceiveWindow, Receiving};
use crate::protocol::sent::{byte_views, history_limit, reliable_count, total_retries, SentHistory};
use crate::protocol::session::{
    data_packet, delivered, frame_of, handshake_packet, item_of, normal, send_if, sends, Act, Event, Fault, OstpState,
    Session, EVICTED_PACKET_BYTES, GAP_RECOVERY_MAX_NANOS, GAP_RECOVERY_MIN_NANOS, GAP_RECOVERY_RTO_MULTIPLIER,
    HANDSHAKE_BUFFER, NACK_FLOOR_NANOS,
};
use crate::protocol::ProtocolError;
use crate::text::{decimal, owned, put_decimal, put_str, string_of};
use crate::time::{capped, Clock, Duration, Instant};

verus! {

broadcast use crate::bytes::group_big_endian;

#[derive(Debug, Clone)]
pub struct ProtocolConfig {
    pub role: NoiseRole,
    pub psk: [u8; 32],
    pub session_id: u32,
    pub handshake_payload: Vec<u8>,
    pub max_padding: usize,
    pub padding_strategy: PaddingStrategy,
    pub obfuscation_key: [u8; 8],
    pub max_reorder: u64,
    pub max_reorder_buffer: usize,
    pub ack_delay_ms: u64,
    pub rto_ms: u64,
    pub max_retries: u8,
    pub max_sent_history: usize,
    /// Handshake padding range that the access key gives: different keys give
    /// different handshake sizes.
    pub handshake_pad_min: usize,
    pub handshake_pad_max: usize,
    pub mtu: usize,
}

pub enum OstpEvent {
    Start,
    Inbound(Vec<u8>),
    /// Stream and payload.
    Outbound(u16, Vec<u8>),
    Close,
    Tick,
}

impl View for OstpEvent {
    type V = Event;

    open spec fn view(&self) -> Event {
        match self {
            OstpEvent::Start => Event::Start,
            OstpEvent::Inbound(d) => Event::Inbound(d@),
            OstpEvent::Outbound(stream, payload) => Event::Outbound(*stream, payload@),
            OstpEvent::Close => Event::Close,
            OstpEvent::Tick => Event::Tick,
        }
    }
}

pub enum ProtocolAction {
    /// A datagram to put on the wire.
    SendDatagram(Vec<u8>),
    /// Stream and payload.
    DeliverApp(u16, Vec<u8>),
    /// The peer's handshake payload, and the answer to send.
    HandshakePayload(Vec<u8>, Option<Vec<u8>>),
    Multiple(Vec<ProtocolAction>),
    Noop,
}

/// One action that is not a list.
pub open spec fn single(a: ProtocolAction) -> Act {
    match a {
        ProtocolAction::SendDatagram(d) => Act::Send(d@),
        ProtocolAction::DeliverApp(stream, payload) => Act::Deliver(stream, payload@),
        ProtocolAction::HandshakePayload(payload, answer) => Act::Greeted(
            payload@,
            match answer {
                Some(d) => Some(d@),
                None => None,
            },
        ),
        ProtocolAction::Multiple(_) => Act::Nothing,
        ProtocolAction::Noop => Act::Nothing,
    }
}

pub open spec fn singles(v: Seq<ProtocolAction>) -> Seq<Act> {
    Seq::new(v.len(), |i: int| single(v[i]))
}

/// No list among the actions.
pub open spec fn flat(v: Seq<ProtocolAction>) -> bool {
    forall|i: int| 0 <= i < v.len() ==> !((#[trigger] v[i]) is Multiple)
}

/// What an action asks for, in order.
pub open spec fn acts_of(a: ProtocolAction) -> Seq<Act> {
    match a {
        ProtocolAction::Multiple(v) => singles(v@),
        ProtocolAction::Noop => Seq::empty(),
        _ => seq![single(a)],
    }
}

/// A list has at least two actions, none of them a list.
pub open spec fn tidy(a: ProtocolAction) -> bool {
    a matches ProtocolAction::Multiple(v) ==> v@.len() >= 2 && flat(v@)
}

pub open spec fn fault(e: ProtocolError) -> Fault {
    match e {
        ProtocolError::State(_) => Fault::State,
        ProtocolError::Crypto(_) => Fault::Crypto,
        ProtocolError::Framing(_) => Fault::Framing,
    }
}

pub open spec fn outcome(r: Result<ProtocolAction, ProtocolError>) -> Result<Seq<Act>, Fault> {
    match r {
        Ok(a) => Ok(acts_of(a)),
        Err(e) => Err(fault(e)),
    }
}

pub open spec fn datagram(r: Result<Vec<u8>, ProtocolError>) -> Result<Seq<u8>, Fault> {
    match r {
        Ok(d) => Ok(d@),
        Err(e) => Err(fault(e)),
    }
}

pub open spec fn maybe_datagram(r: Result<Option<Vec<u8>>, ProtocolError>) -> Result<Option<Seq<u8>>, Fault> {
    match r {
        Ok(Some(d)) => Ok(Some(d@)),
        Ok(None) => Ok(None),
        Err(e) => Err(fault(e)),
    }
}

pub open spec fn opt_bytes(d: Option<Vec<u8>>) -> Option<Seq<u8>> {
    match d {
        Some(b) => Some(b@),
        None => None,
    }
}

/// One action for a list of them.
fn collate(list: Vec<ProtocolAction>) -> (r: ProtocolAction)
    requires
        flat(list@),
    ensures
        acts_of(r) == normal(singles(list@)),
        tidy(r),
{
    let mut list = list;
    if list.len() == 0 {
        assert(singles(list@) =~= Seq::empty());
        return ProtocolAction::Noop;
    }
    if list.len() == 1 {
        let ghost before = list@;
        let a = list.pop().unwrap();
        assert(a == before[0]);
        assert(singles(before) =~= seq![single(a)]);
        assert(!(before[0] is Multiple));
        return a;
    }
    ProtocolAction::Multiple(list)
}

fn push_deliveries(list: &mut Vec<ProtocolAction>, deliveries: Vec<Delivery>)
    requires
        flat(old(list)@),
    ensures
        flat(final(list)@),
        singles(final(list)@) == singles(old(list)@) + delivered(items(deliveries@)),
{
    let mut deliveries = deliveries;
    deliveries = reversed(deliveries);
    let ghost all = items(deliveries@);
    let ghost n = deliveries@.len() as int;
    let ghost target = delivered(items(deliveries@).reverse());
    assert(singles(list@) =~= singles(old(list)@) + target.subrange(0, 0));
    while deliveries.len() > 0
        invariant
            flat(list@),
            n == all.len(),
            target == delivered(all.reverse()),
            deliveries@.len() <= n,
            forall|k: int| 0 <= k < deliveries@.len() ==> (#[trigger] deliveries@[k])@ == all[k],
            singles(list@) == singles(old(list)@) + target.subrange(0, n - deliveries@.len()),
        decreases deliveries@.len(),
    {
        let ghost before = list@;
        let ghost k = n - deliveries@.len();
        let d = deliveries.pop().unwrap();
        assert(d@ == all[n - 1 - k]);
        assert(d@ == all.reverse()[k]);
        let a = match d.data {
            Some((stream, payload)) => ProtocolAction::DeliverApp(stream, payload),
            None => ProtocolAction::Noop,
        };
        assert(single(a) == target[k]);
        list.push(a);
        assert(singles(list@) =~= singles(before).push(single(a)));
        assert(target.subrange(0, k + 1) =~= target.subrange(0, k).push(target[k]));
        assert(singles(list@) =~= singles(old(list)@) + target.subrange(0, k + 1));
    }
    assert(target.subrange(0, n) =~= target);
}

fn reversed(v: Vec<Delivery>) -> (r: Vec<Delivery>)
    ensures
        items(r@).reverse() == items(v@),
{
    let mut v = v;
    let mut r: Vec<Delivery> = Vec::new();
    let ghost all = v@;
    while v.len() > 0
        invariant
            v@.len() <= all.len(),
            v@ == all.subrange(0, v@.len() as int),
            r@.len() == all.len() - v@.len(),
            forall|k: int| 0 <= k < r@.len() ==> #[trigger] r@[k] == all[all.len() - 1 - k],
        decreases v@.len(),
    {
        let d = v.pop().unwrap();
        r.push(d);
    }
    assert(items(r@).reverse() =~= items(all));
    r
}

fn push_datagrams(list: &mut Vec<ProtocolAction>, datagrams: Vec<Vec<u8>>)
    requires
        flat(old(list)@),
    ensures
        flat(final(list)@),
        singles(final(list)@) == singles(old(list)@) + sends(byte_views(datagrams@)),
{
    let mut i: usize = 0;
    let ghost target = sends(byte_views(datagrams@));
    assert(singles(list@) =~= singles(old(list)@) + target.subrange(0, 0));
    while i < datagrams.len()
        invariant
            flat(list@),
            target == sends(byte_views(datagrams@)),
            i <= datagrams@.len(),
            singles(list@) == singles(old(list)@) + target.subrange(0, i as int),
        decreases datagrams@.len() - i,
    {
        let ghost before = list@;
        let a = ProtocolAction::SendDatagram(copy_of(&datagrams[i]));
        assert(single(a) == target[i as int]);
        list.push(a);
        assert(singles(list@) =~= singles(before).push(single(a)));
        assert(target.subrange(0, i + 1) =~= target.subrange(0, i as int).push(target[i as int]));
        i += 1;
    }
    assert(target.subrange(0, i as int) =~= target);
}

fn push_datagram(list: &mut Vec<ProtocolAction>, d: Option<Vec<u8>>)
    requires
        flat(old(list)@),
    ensures
        flat(final(list)@),
        singles(final(list)@) == singles(old(list)@) + send_if(opt_bytes(d)),
{
    match d {
        Some(b) => {
            list.push(ProtocolAction::SendDatagram(b));
            assert(singles(list@) =~= singles(old(list)@).push(Act::Send(b@)));
        },
        None => {
            assert(singles(list@) =~= singles(old(list)@) + Seq::<Act>::empty());
        },
    }
}

/// What a stalled session released, and then what the packet gave.
fn join(released: Vec<Delivery>, result: ProtocolAction) -> (r: ProtocolAction)
    requires
        tidy(result),
    ensures
        tidy(r),
        acts_of(r) == if released@.len() > 0 {
            normal(delivered(items(released@)) + acts_of(result))
        } else {
            acts_of(result)
        },
{
    if released.len() == 0 {
        return result;
    }
    let mut list: Vec<ProtocolAction> = Vec::new();
    let ghost start = delivered(items(released@));
    push_deliveries(&mut list, released);
    assert(singles(list@) =~= start);
    match result {
        ProtocolAction::Noop => {
            assert(start + Seq::<Act>::empty() =~= start);
        },
        ProtocolAction::Multiple(more) => {
            let mut more = more;
            let ghost extra = more@;
            let ghost before = list@;
            list.append(&mut more);
            assert(singles(list@) =~= singles(before) + singles(extra));
            assert forall|i: int| 0 <= i < list@.len() implies !((#[trigger] list@[i]) is Multiple) by {
                if i < before.len() {
                    assert(list@[i] == before[i]);
                } else {
                    assert(list@[i] == extra[i - before.len()]);
                }
            }
        },
        other => {
            let ghost before = list@;
            list.push(other);
            assert(singles(list@) =~= singles(before).push(single(other)));
            assert(start + seq![single(other)] =~= start.push(single(other)));
        },
    }
    collate(list)
}

/// A session.
pub struct ProtocolMachine {
    role: NoiseRole,
    state: OstpState,
    noise: NoiseSession,
    send_cipher: Option<SessionCipher>,
    recv_cipher: Option<SessionCipher>,
    send_nonce: u64,
    recv: ReceiveWindow,
    sent_history: SentHistory,
    session_id: u32,
    handshake_payload: Vec<u8>,
    padder: AdaptivePadder,
    obfuscation_key: [u8; 8],
    ack_delay: Duration,
    rto: Duration,
    max_retries: u8,
    ack_pending: bool,
    last_ack_sent: Instant,
    last_nack_sent: Instant,
    cc: CongestionController,
    handshake_pad_min: usize,
    handshake_pad_max: usize,
    clock: Clock,
}

impl View for ProtocolMachine {
    type V = Session;

    closed spec fn view(&self) -> Session {
        Session {
            role: self.role,
            state: self.state,
            session_id: self.session_id,
            obfuscation_key: self.obfuscation_key@,
            send_key: match self.send_cipher {
                Some(c) => Some(c@),
                None => None,
            },
            recv_key: match self.recv_cipher {
                Some(c) => Some(c@),
                None => None,
            },
            send_nonce: self.send_nonce,
            recv: self.recv@,
            sent: self.sent_history@,
            max_sent: self.sent_history.limit(),
            ack_pending: self.ack_pending,
            last_ack: self.last_ack_sent.nanos as int,
            last_nack: self.last_nack_sent.nanos as int,
            cc: self.cc@,
            ack_delay: self.ack_delay.nanos as int,
            rto: self.rto.nanos as int,
            max_retries: self.max_retries as int,
            padder: self.padder,
            pad_min: self.handshake_pad_min as int,
            pad_max: self.handshake_pad_max as int,
            greeting: self.handshake_payload@,
            psk: self.noise.psk(),
            hand: self.noise.hand(),
        }
    }
}

/// The session that a configuration begins at `now`.
pub open spec fn initial(c: ProtocolConfig, padder: AdaptivePadder, now: int) -> Session {
    Session {
        role: c.role,
        state: OstpState::Init,
        session_id: c.session_id,
        obfuscation_key: c.obfuscation_key@,
        send_key: None,
        recv_key: None,
        send_nonce: 0,
        recv: Receiving {
            expected: 0,
            held: Seq::empty(),
            highest: None,
            last_advance: now,
            max_reorder: larger(c.max_reorder as int, 1) as u64,
            max_held: larger(c.max_reorder_buffer as int, 1),
        },
        sent: Seq::empty(),
        max_sent: history_limit(c.max_sent_history as int),
        ack_pending: false,
        last_ack: now,
        last_nack: less(now, 1_000_000_000),
        cc: crate::congestion::CcState::initial(c.mtu as int, now),
        ack_delay: capped(larger(c.ack_delay_ms as int, 1) * 1_000_000),
        rto: capped(larger(c.rto_ms as int, 1) * 1_000_000),
        max_retries: larger(c.max_retries as int, 1),
        padder,
        pad_min: larger(c.handshake_pad_min as int, 8),
        pad_max: larger(c.handshake_pad_max as int, c.handshake_pad_min + 16),
        greeting: c.handshake_payload@,
        psk: c.psk@,
        hand: Hand::Fresh,
    }
}

impl ProtocolMachine {
    /// The parts are well formed, and the handshake state is kept.
    pub closed spec fn wf(&self) -> bool {
        &&& self.recv@.wf()
        &&& self.sent_history.wf()
        &&& self.cc.wf()
        &&& self.noise is Handshake
        &&& self.noise.role() == self.role
        &&& self.handshake_pad_min <= self.handshake_pad_max
    }

    /// A new session.
    pub fn new(config: ProtocolConfig) -> (r: Result<Self, ProtocolError>)
        requires
            config.mtu > 0,
            config.handshake_pad_min + 16 <= usize::MAX,
        ensures
            r matches Ok(m) && m.wf() && exists|padder: AdaptivePadder, now: int|
                m@ == #[trigger] initial(config, padder, now) && pads_as(padder, config),
    {
        let clock = Clock::start();
        let now = clock.now();
        Self::new_at(config, clock, now)
    }

    /// A new session that starts at `now`.
    pub fn new_at(config: ProtocolConfig, clock: Clock, now: Instant) -> (r: Result<Self, ProtocolError>)
        requires
            config.mtu > 0,
            config.handshake_pad_min + 16 <= usize::MAX,
        ensures
            r matches Ok(m) && m.wf() && exists|padder: AdaptivePadder|
                m@ == #[trigger] initial(config, padder, now.nanos as int) && pads_as(padder, config),
    {
        let noise = match NoiseSession::new(config.role, &config.psk) {
            Ok(n) => n,
            Err(e) => {
                return Err(e);
            },
        };
        let padder = AdaptivePadder::new(config.mtu, config.max_padding, config.padding_strategy);
        let one_or = |n: u64| -> (r: u64)
            ensures
                r == larger(n as int, 1),
            {
                if n >= 1 {
                    n
                } else {
                    1
                }
            };
        let m = ProtocolMachine {
            role: config.role,
            state: OstpState::Init,
            noise,
            send_cipher: None,
            recv_cipher: None,
            send_nonce: 0,
            recv: ReceiveWindow::new(config.max_reorder, config.max_reorder_buffer, now),
            sent_history: SentHistory::new(config.max_sent_history),
            session_id: config.session_id,
            handshake_payload: copy_of(&config.handshake_payload),
            padder,
            obfuscation_key: config.obfuscation_key,
            ack_delay: Duration::from_millis(one_or(config.ack_delay_ms)),
            rto: Duration::from_millis(one_or(config.rto_ms)),
            max_retries: if config.max_retries >= 1 {
                config.max_retries
            } else {
                1
            },
            ack_pending: false,
            last_ack_sent: now,
            last_nack_sent: Instant { nanos: now.nanos.saturating_sub(1_000_000_000) },
            cc: CongestionController::new_at(config.mtu as u64, clock, now),
            handshake_pad_min: if config.handshake_pad_min >= 8 {
                config.handshake_pad_min
            } else {
                8
            },
            handshake_pad_max: if config.handshake_pad_max >= config.handshake_pad_min + 16 {
                config.handshake_pad_max
            } else {
                config.handshake_pad_min + 16
            },
            clock,
        };
        assert(m@ =~= initial(config, padder, now.nanos as int));
        Ok(m)
    }

    // ── What a session tells ─────────────────────────────────────────────────

    /// The highest packet number that passed authentication.
    pub fn highest_authenticated_recv_nonce(&self) -> (r: Option<u64>)
        ensures
            r == self@.recv.highest,
    {
        self.recv.highest()
    }

    /// How many reliable packets wait for an acknowledgement.
    pub fn in_flight_count(&self) -> (r: usize)
        ensures
            r == reliable_count(self@.sent),
            self.wf() ==> r <= i64::MAX,
    {
        self.sent_history.in_flight()
    }

    /// The retries of all reliable packets that wait for an acknowledgement.
    pub fn total_retries(&self) -> (r: u64)
        ensures
            r == capped(total_retries(self@.sent)),
    {
        self.sent_history.total_retries()
    }

    /// The congestion window in packets.
    pub fn cwnd_packets(&self) -> (r: usize)
        requires
            self.wf(),
        ensures
            r == smaller(self@.cc.packets(), usize::MAX as int),
    {
        self.cc.cwnd_packets()
    }

    /// How many packets may be sent again in one tick.
    pub fn retransmit_budget(&self) -> (r: usize)
        requires
            self.wf(),
        ensures
            r == self@.cc.budget(),
            2 <= r <= 64,
    {
        self.cc.retransmit_budget()
    }

    /// Whether another packet may be released now.
    pub fn can_pace_packet(&self) -> (r: bool)
        ensures
            r == (self@.cc.in_flight < self@.cc.cwnd),
    {
        self.cc.can_pace_packet()
    }

    /// `bytes` were sent for this session by other means.
    pub fn on_send(&mut self, bytes: u64)
        ensures
            final(self)@ == (Session { cc: old(self)@.cc.sent(bytes as int), ..old(self)@ }),
            old(self).wf() ==> final(self).wf(),
    {
        self.cc.on_send(bytes);
        assert(self@ =~= (Session { cc: old(self)@.cc.sent(bytes as int), ..old(self)@ }));
    }

    pub fn state(&self) -> (r: OstpState)
        ensures
            r == self@.state,
    {
        self.state
    }

    /// The session goes on under another id and header key.
    pub fn set_session_keys(&mut self, session_id: u32, obfuscation_key: [u8; 8])
        ensures
            final(self)@ == (Session { session_id, obfuscation_key: obfuscation_key@, ..old(self)@ }),
            old(self).wf() ==> final(self).wf(),
    {
        self.session_id = session_id;
        self.obfuscation_key = obfuscation_key;
        assert(self@ =~= (Session { session_id, obfuscation_key: obfuscation_key@, ..old(self)@ }));
    }

    /// The present on the session's clock.
    pub fn now(&self) -> (r: Instant) {
        self.clock.now()
    }
}

// ── Packets that go out ──────────────────────────────────────────────────────

impl ProtocolMachine {
    fn session_id_bytes(&self) -> (r: Vec<u8>)
        ensures
            r@ == be32(self@.session_id as int),
    {
        let mut v: Vec<u8> = Vec::new();
        put_u32(&mut v, self.session_id);
        assert(v@ =~= be32(self@.session_id as int));
        v
    }

    /// Builds the next packet, with the padding that is given.
    fn build_datagram_with(
        &mut self,
        stream_id: u16,
        kind: FrameKind,
        payload: Vec<u8>,
        is_retransmittable: bool,
        padding: Vec<u8>,
        now: Instant,
    ) -> (r: Result<Vec<u8>, ProtocolError>)
        requires
            old(self).wf(),
            padding@.len() <= 0xffff,
            padding@.len() <= old(self)@.padder.room(payload@.len() as int),
        ensures
            final(self).wf(),
            (final(self)@, datagram(r)) == old(self)@.built(
                stream_id,
                kind,
                payload@,
                is_retransmittable,
                padding@,
                now.nanos as int,
            ),
            r matches Ok(d) ==> payload@.len() < 0x1_0000_0000 ==> carries(
                d@,
                old(self)@,
                old(self)@.send_key->0,
                old(self)@.send_nonce,
                frame_of(stream_id, kind, payload@, padding@),
            ),
    {
        let ghost start = self@;
        let header = FrameHeader {
            version: 1,
            kind,
            stream_id,
            payload_len: (payload.len() as u64 % 0x1_0000_0000) as u32,
            pad_len: padding.len() as u16,
        };
        let packet = FramedPacket { header, payload, padding };
        let ghost frame = frame_of(stream_id, kind, payload@, padding@);
        assert(packet@ =~= frame);
        let plaintext = packet.encode();
        let aad = self.session_id_bytes();
        let nonce: u64 = self.send_nonce;
        let cipher = match &self.send_cipher {
            Some(c) => c,
            None => {
                return Err(ProtocolError::State(owned("missing send cipher")));
            },
        };
        if nonce == u64::MAX {
            return Err(ProtocolError::Crypto(owned("send nonce sequence exhausted")));
        }
        let sealed = cipher.encrypt(nonce, &plaintext, &aad);
        self.send_nonce = nonce + 1;
        let ciphertext = match sealed {
            Ok(c) => c,
            Err(e) => {
                assert(self@ =~= (Session { send_nonce: (nonce + 1) as u64, ..start }));
                return Err(e);
            },
        };
        let mut out: Vec<u8> = Vec::new();
        put_u32(&mut out, self.session_id);
        put_u64(&mut out, nonce);
        put_slice(&mut out, &ciphertext);
        let ghost plain = data_packet(start.session_id, nonce, ciphertext@);
        assert(out@ =~= plain);
        obfuscate_packet_inplace(&mut out, &self.obfuscation_key, false);
        proof {
            lemma_carried(start, start.send_key->0, nonce, ciphertext@, frame);
        }
        let kept = copy_of(&out);
        if is_retransmittable {
            self.cc.on_send(out.len() as u64);
        }
        self.sent_history.push(nonce, kept, is_retransmittable, now);
        assert(self@ =~= (Session { send_nonce: (nonce + 1) as u64, ..start }).noted(
            nonce,
            out@,
            is_retransmittable,
            now.nanos as int,
        ));
        Ok(out)
    }

    /// Builds the next packet, with random padding.
    fn build_datagram(
        &mut self,
        stream_id: u16,
        kind: FrameKind,
        payload: Vec<u8>,
        is_retransmittable: bool,
        now: Instant,
    ) -> (r: Result<Vec<u8>, ProtocolError>)
        requires
            old(self).wf(),
        ensures
            final(self).wf(),
            exists|pad: Seq<u8>| (final(self)@, datagram(r)) == #[trigger] old(self)@.built(
                stream_id,
                kind,
                payload@,
                is_retransmittable,
                pad,
                now.nanos as int,
            ),
            r matches Ok(d) ==> payload@.len() < 0x1_0000_0000 ==> holds_payload(
                d@,
                old(self)@,
                stream_id,
                kind,
                payload@,
            ),
    {
        let padding = self.padder.build_padding(payload.len());
        let ghost pad = padding@;
        let ghost start = self@;
        let r = self.build_datagram_with(stream_id, kind, payload, is_retransmittable, padding, now);
        assert((self@, datagram(r)) == start.built(
            stream_id,
            kind,
            payload@,
            is_retransmittable,
            pad,
            now.nanos as int,
        ));
        assert(r matches Ok(d) ==> payload@.len() < 0x1_0000_0000 ==> carries(
            d@,
            start,
            start.send_key->0,
            start.send_nonce,
            frame_of(stream_id, kind, payload@, pad),
        ));
        r
    }

    /// A request for the packet that is expected next.
    fn build_nack(&mut self, now: Instant) -> (r: Result<Vec<u8>, ProtocolError>)
        requires
            old(self).wf(),
        ensures
            final(self).wf(),
            exists|pad: Seq<u8>| (final(self)@, datagram(r)) == #[trigger] old(self)@.nack_built(pad, now.nanos as int),
    {
        let mut payload: Vec<u8> = Vec::new();
        put_u64(&mut payload, self.recv.expected());
        let ghost start = self@;
        assert(payload@ =~= be64(start.recv.expected as int));
        let r = self.build_datagram(0, FrameKind::Nack, payload, false, now);
        proof {
            let pad = choose|pad: Seq<u8>| (self@, datagram(r)) == #[trigger] start.built(
                0,
                FrameKind::Nack,
                payload@,
                false,
                pad,
                now.nanos as int,
            );
            assert((self@, datagram(r)) == start.nack_built(pad, now.nanos as int));
        }
        r
    }

    /// An acknowledgement of everything received, where anything was.
    fn force_build_ack(&mut self, now: Instant) -> (r: Result<Option<Vec<u8>>, ProtocolError>)
        requires
            old(self).wf(),
        ensures
            final(self).wf(),
            exists|pad: Seq<u8>| (final(self)@, maybe_datagram(r)) == #[trigger] old(self)@.ack_built(
                pad,
                now.nanos as int,
            ),
    {
        let ghost start = self@;
        let held = self.recv.held_nonces();
        proof {
            assert forall|i: int, j: int| 0 <= i < j < held@.len() implies held@[i] < held@[j] by {
                assert(start.recv.held[i].nonce < start.recv.held[j].nonce);
            }
        }
        let payload = build_ack_payload(self.recv.expected(), &held);
        if payload.len() == 0 {
            self.ack_pending = false;
            assert(self@ =~= (Session { ack_pending: false, ..start }));
            assert((self@, Ok::<Option<Seq<u8>>, Fault>(None)) == start.ack_built(Seq::empty(), now.nanos as int));
            return Ok(None);
        }
        let built = self.build_datagram(0, FrameKind::Ack, payload, false, now);
        let ghost mid = self@;
        let ghost pad = choose|pad: Seq<u8>| (mid, datagram(built)) == #[trigger] start.built(
            0,
            FrameKind::Ack,
            payload@,
            false,
            pad,
            now.nanos as int,
        );
        match built {
            Ok(d) => {
                self.ack_pending = false;
                self.last_ack_sent = now;
                assert(self@ =~= (Session { ack_pending: false, last_ack: now.nanos as int, ..mid }));
                assert((self@, Ok::<Option<Seq<u8>>, Fault>(Some(d@))) == start.ack_built(pad, now.nanos as int));
                Ok(Some(d))
            },
            Err(e) => {
                assert((self@, Err::<Option<Seq<u8>>, Fault>(fault(e))) == start.ack_built(pad, now.nanos as int));
                Err(e)
            },
        }
    }

    /// An acknowledgement, where one is owed and the last is long enough ago.
    fn build_ack_if_due(&mut self, now: Instant) -> (r: Result<Option<Vec<u8>>, ProtocolError>)
        requires
            old(self).wf(),
        ensures
            final(self).wf(),
            exists|pad: Seq<u8>| (final(self)@, maybe_datagram(r)) == #[trigger] old(self)@.ack_if_due(
                pad,
                now.nanos as int,
            ),
    {
        let ghost start = self@;
        if !self.ack_pending || now.duration_since(self.last_ack_sent).nanos < self.ack_delay.nanos {
            assert((self@, Ok::<Option<Seq<u8>>, Fault>(None)) == start.ack_if_due(Seq::empty(), now.nanos as int));
            return Ok(None);
        }
        let r = self.force_build_ack(now);
        proof {
            let pad = choose|pad: Seq<u8>| (self@, maybe_datagram(r)) == #[trigger] start.ack_built(
                pad,
                now.nanos as int,
            );
            assert((self@, maybe_datagram(r)) == start.ack_if_due(pad, now.nanos as int));
        }
        r
    }
}

// ── Packets that come in ─────────────────────────────────────────────────────

impl ProtocolMachine {
    /// How long to wait between two requests for missing packets while packets are held.
    fn nack_cooldown(&self) -> (r: Duration)
        ensures
            r.nanos == self@.nack_cooldown(),
    {
        let half = Duration { nanos: self.cc.rto().nanos / 2 };
        half.max(Duration { nanos: NACK_FLOOR_NANOS })
    }

    /// How long a missing packet is waited for.
    fn gap_timeout(&self) -> (r: Duration)
        ensures
            r.nanos == self@.gap_timeout(),
    {
        self.cc.rto().saturating_mul(GAP_RECOVERY_RTO_MULTIPLIER).max(
            Duration { nanos: GAP_RECOVERY_MIN_NANOS },
        ).min(Duration { nanos: GAP_RECOVERY_MAX_NANOS })
    }

    /// The bytes of a packet that the peer asks for, where they are still known.
    fn lookup_sent_frame(&mut self, nonce: u64, now: Instant) -> (r: Option<Vec<u8>>)
        requires
            old(self).wf(),
        ensures
            final(self).wf(),
            (final(self)@, opt_bytes(r)) == old(self)@.asked(nonce, now.nanos as int),
    {
        let ghost start = self@;
        let found = self.sent_history.request(nonce, now);
        let lost: u64 = match &found {
            Some(b) => b.len() as u64,
            None => EVICTED_PACKET_BYTES,
        };
        self.cc.on_loss(lost);
        assert(self@ =~= start.asked(nonce, now.nanos as int).0);
        found
    }

    /// Forgets what the peer acknowledges.
    fn drop_acked_frames(&mut self, ranges: &[(u64, u64)], now: Instant)
        requires
            old(self).wf(),
        ensures
            final(self).wf(),
            final(self)@ == old(self)@.acknowledged(ranges@, now.nanos as int),
    {
        let ghost start = self@;
        let (bytes, rtt) = self.sent_history.acknowledge(ranges, now);
        if bytes > 0 {
            self.cc.on_ack_at(bytes, rtt, now);
        }
        assert(self@ =~= start.acknowledged(ranges@, now.nanos as int));
    }

    /// What a frame does before its turn comes. Returns the packet that the peer
    /// asked for.
    fn notice(&mut self, packet: &FramedPacket, now: Instant) -> (r: Result<Option<Vec<u8>>, ProtocolError>)
        requires
            old(self).wf(),
        ensures
            final(self).wf(),
            (final(self)@, maybe_datagram(r)) == old(self)@.noticed(packet@, now.nanos as int),
    {
        let ghost start = self@;
        match packet.header.kind {
            FrameKind::Nack => {
                if packet.payload.len() >= 8 {
                    let wanted: u64 = get_u64(&packet.payload, 0);
                    Ok(self.lookup_sent_frame(wanted, now))
                } else {
                    Ok(None)
                }
            },
            FrameKind::Ack => match parse_ack_ranges(&packet.payload) {
                Ok(ranges) => {
                    self.drop_acked_frames(&ranges, now);
                    Ok(None)
                },
                Err(e) => Err(e),
            },
            FrameKind::Data | FrameKind::KeepAlive => {
                self.ack_pending = true;
                assert(self@ =~= (Session { ack_pending: true, ..start }));
                Ok(None)
            },
            FrameKind::Close => {
                self.state = OstpState::Closed;
                self.ack_pending = true;
                assert(self@ =~= (Session { state: OstpState::Closed, ack_pending: true, ..start }));
                Ok(None)
            },
            FrameKind::Handshake => Ok(None),
        }
    }

    /// Asks for the missing packet, where the last request is `wait` ago.
    fn build_nack_after(&mut self, wait: Duration, now: Instant) -> (r: Option<Vec<u8>>)
        requires
            old(self).wf(),
        ensures
            final(self).wf(),
            exists|pad: Seq<u8>| (final(self)@, opt_bytes(r)) == #[trigger] old(self)@.nack_after(
                wait.nanos as int,
                pad,
                now.nanos as int,
            ),
    {
        let ghost start = self@;
        if now.duration_since(self.last_nack_sent).nanos < wait.nanos {
            assert((self@, None::<Seq<u8>>) == start.nack_after(wait.nanos as int, Seq::empty(), now.nanos as int));
            return None;
        }
        self.last_nack_sent = now;
        let ghost mid = self@;
        assert(mid =~= (Session { last_nack: now.nanos as int, ..start }));
        let built = self.build_nack(now);
        let ghost pad = choose|pad: Seq<u8>| (self@, datagram(built)) == #[trigger] mid.nack_built(
            pad,
            now.nanos as int,
        );
        let r = match built {
            Ok(d) => Some(d),
            Err(_) => None,
        };
        assert((self@, opt_bytes(r)) == start.nack_after(wait.nanos as int, pad, now.nanos as int));
        r
    }

    /// Asks for a missing packet, where that is due.
    fn build_nack_if_due(&mut self, in_order: bool, now: Instant) -> (r: Option<Vec<u8>>)
        requires
            old(self).wf(),
        ensures
            final(self).wf(),
            exists|pad: Seq<u8>| (final(self)@, opt_bytes(r)) == #[trigger] old(self)@.nack_if_due(
                in_order,
                pad,
                now.nanos as int,
            ),
    {
        let ghost start = self@;
        let ghost t = now.nanos as int;
        if in_order {
            assert((self@, None::<Seq<u8>>) == start.nack_if_due(in_order, Seq::empty(), t));
            return None;
        }
        let wait = self.nack_cooldown();
        let r = self.build_nack_after(wait, now);
        let ghost p = choose|p: Seq<u8>| (self@, opt_bytes(r)) == #[trigger] start.nack_after(wait.nanos as int, p, t);
        assert((self@, opt_bytes(r)) == start.nack_if_due(in_order, p, t));
        r
    }

    /// Takes a packet in its turn and collects everything there is to do.
    fn put_in_order(&mut self, nonce: u64, delivery: Delivery, resent: Option<Vec<u8>>, now: Instant) -> (r: Result<
        ProtocolAction,
        ProtocolError,
    >)
        requires
            old(self).wf(),
            nonce >= old(self)@.recv.expected,
        ensures
            final(self).wf(),
            exists|p: Seq<u8>, q: Seq<u8>| (final(self)@, outcome(r)) == #[trigger] old(self)@.ordered(
                nonce,
                delivery@,
                opt_bytes(resent),
                p,
                q,
                now.nanos as int,
            ),
            r matches Ok(a) ==> tidy(a),
    {
        let ghost start = self@;
        let ghost t = now.nanos as int;
        let ghost item = delivery@;
        let ghost again = opt_bytes(resent);
        let in_order = nonce == self.recv.expected();
        let taken = self.recv.take(nonce, delivery, now);
        let ghost a = self@;
        assert(a =~= (Session { recv: start.recv.taken(nonce, item, t).0, ..start }));
        let released = match taken {
            Some(v) => v,
            None => {
                assert((self@, Err::<Seq<Act>, Fault>(Fault::Crypto)) == start.ordered(
                    nonce,
                    item,
                    again,
                    Seq::empty(),
                    Seq::empty(),
                    t,
                ));
                return Err(ProtocolError::Crypto(owned("recv nonce sequence exhausted")));
            },
        };
        let nack = self.build_nack_if_due(in_order, now);
        let ghost b = self@;
        let ghost p = choose|p: Seq<u8>| (b, opt_bytes(nack)) == #[trigger] a.nack_if_due(in_order, p, t);
        let ack = self.build_ack_if_due(now);
        let ghost c = self@;
        let ghost q = choose|q: Seq<u8>| (c, maybe_datagram(ack)) == #[trigger] b.ack_if_due(q, t);
        let ghost nack0 = opt_bytes(nack);
        match ack {
            Err(e) => {
                assert((self@, Err::<Seq<Act>, Fault>(fault(e))) == start.ordered(nonce, item, again, p, q, t));
                Err(e)
            },
            Ok(ack) => {
                let ghost ack0 = opt_bytes(ack);
                let mut list: Vec<ProtocolAction> = Vec::new();
                assert(singles(list@) =~= Seq::empty());
                push_datagram(&mut list, resent);
                assert(singles(list@) =~= send_if(again));
                push_datagram(&mut list, nack);
                push_datagram(&mut list, ack);
                push_deliveries(&mut list, released);
                let r = collate(list);
                assert((self@, Ok::<Seq<Act>, Fault>(acts_of(r))) == start.ordered(nonce, item, again, p, q, t));
                Ok(r)
            },
        }
    }

    /// A data packet with its header unmasked.
    fn handle_data_inbound_frame(&mut self, raw: &[u8], now: Instant) -> (r: Result<ProtocolAction, ProtocolError>)
        requires
            old(self).wf(),
        ensures
            final(self).wf(),
            exists|p: Seq<u8>, q: Seq<u8>| (final(self)@, outcome(r)) == #[trigger] old(self)@.frame_in(
                raw@,
                p,
                q,
                now.nanos as int,
            ),
            r matches Ok(a) ==> tidy(a),
    {
        let ghost start = self@;
        let ghost t = now.nanos as int;
        let ghost none = Seq::<u8>::empty();
        if raw.len() < 12 {
            assert((self@, Err::<Seq<Act>, Fault>(Fault::Framing)) == start.frame_in(raw@, none, none, t));
            return Err(ProtocolError::Framing(owned("data datagram too short")));
        }
        let nonce: u64 = get_u64(raw, 4);
        if nonce < self.recv.expected() {
            // The acknowledgement was lost or is late.
            let built = self.force_build_ack(now);
            let ghost q = choose|q: Seq<u8>| (self@, maybe_datagram(built)) == #[trigger] start.ack_built(q, t);
            let r = match built {
                Ok(Some(d)) => Ok(ProtocolAction::SendDatagram(d)),
                Ok(None) => Ok(ProtocolAction::Noop),
                Err(e) => Err(e),
            };
            assert((self@, outcome(r)) == start.frame_in(raw@, none, q, t));
            return r;
        }
        if self.recv.too_far(nonce) {
            let built = self.build_nack_after(Duration { nanos: NACK_FLOOR_NANOS }, now);
            let ghost floor = NACK_FLOOR_NANOS as int;
            let ghost p = choose|p: Seq<u8>| (self@, opt_bytes(built)) == #[trigger] start.nack_after(floor, p, t);
            let r = match built {
                Some(d) => Ok(ProtocolAction::SendDatagram(d)),
                None => Ok(ProtocolAction::Noop),
            };
            assert((self@, outcome(r)) == start.frame_in(raw@, p, none, t));
            return r;
        }
        let aad = self.session_id_bytes();
        let cipher = match &self.recv_cipher {
            Some(c) => c,
            None => {
                assert((self@, Err::<Seq<Act>, Fault>(Fault::State)) == start.frame_in(raw@, none, none, t));
                return Err(ProtocolError::State(owned("missing recv cipher")));
            },
        };
        let plaintext = match cipher.decrypt(nonce, slice_subrange(raw, 12, raw.len()), &aad) {
            Ok(p) => p,
            Err(e) => {
                assert((self@, Err::<Seq<Act>, Fault>(Fault::Crypto)) == start.frame_in(raw@, none, none, t));
                return Err(e);
            },
        };
        self.recv.note_authentic(nonce);
        let ghost a = self@;
        assert(a =~= (Session { recv: start.recv.authenticated(nonce), ..start }));
        let packet = match FramedPacket::decode_zero_copy(&plaintext) {
            Ok(p) => p,
            Err(e) => {
                assert((self@, Err::<Seq<Act>, Fault>(Fault::Framing)) == start.frame_in(raw@, none, none, t));
                return Err(e);
            },
        };
        let noticed = self.notice(&packet, now);
        let ghost b = self@;
        proof {
            lemma_noticing_keeps_the_window(a, packet@, t);
        }
        match noticed {
            Err(e) => {
                assert((self@, Err::<Seq<Act>, Fault>(fault(e))) == start.frame_in(raw@, none, none, t));
                Err(e)
            },
            Ok(resent) => {
                let ghost again = opt_bytes(resent);
                let ghost f = packet@;
                let delivery = delivery_of(packet);
                let r = self.put_in_order(nonce, delivery, resent, now);
                proof {
                    let (p, q) = choose|p: Seq<u8>, q: Seq<u8>| (self@, outcome(r)) == #[trigger] b.ordered(
                        nonce,
                        item_of(f),
                        again,
                        p,
                        q,
                        t,
                    );
                    assert((self@, outcome(r)) == a.opened(nonce, f, p, q, t));
                    assert((self@, outcome(r)) == start.frame_in(raw@, p, q, t));
                }
                r
            },
        }
    }

    /// Gives up missing packets where the session is stalled.
    fn recover_stalled_gap(&mut self, now: Instant) -> (r: Vec<Delivery>)
        requires
            old(self).wf(),
        ensures
            final(self).wf(),
            ({
                let (recv, released) = old(self)@.recv.recovered(old(self)@.gap_timeout(), now.nanos as int);
                &&& items(r@) == released
                &&& final(self)@ == (Session {
                    recv,
                    ack_pending: old(self)@.ack_pending || released.len() > 0,
                    ..old(self)@
                })
            }),
    {
        let ghost start = self@;
        let timeout = self.gap_timeout();
        let released = self.recv.recover(timeout, now);
        if released.len() > 0 {
            // The peer must learn that the sequence moved on.
            self.ack_pending = true;
        }
        assert(items(released@).len() == released@.len());
        assert(self@ =~= (Session {
            recv: start.recv.recovered(start.gap_timeout(), now.nanos as int).0,
            ack_pending: start.ack_pending || released@.len() > 0,
            ..start
        }));
        released
    }

    /// A data packet; a stalled session gives up what is missing first, and what that
    /// releases is delivered whatever becomes of the packet.
    fn handle_data_inbound(&mut self, raw: &[u8], now: Instant) -> (r: Result<ProtocolAction, ProtocolError>)
        requires
            old(self).wf(),
        ensures
            final(self).wf(),
            exists|p: Seq<u8>, q: Seq<u8>| (final(self)@, outcome(r)) == #[trigger] old(self)@.data_in(
                raw@,
                p,
                q,
                now.nanos as int,
            ),
            r matches Ok(a) ==> tidy(a),
    {
        let ghost start = self@;
        let ghost t = now.nanos as int;
        let released = self.recover_stalled_gap(now);
        let ghost a = self@;
        let ghost freed = items(released@);
        assert(freed.len() == released@.len());
        let handled = self.handle_data_inbound_frame(raw, now);
        let ghost (p, q) = choose|p: Seq<u8>, q: Seq<u8>| (self@, outcome(handled)) == #[trigger] a.frame_in(
            raw@,
            p,
            q,
            t,
        );
        let r = match handled {
            Ok(result) => Ok(join(released, result)),
            Err(e) => if released.len() > 0 {
                assert(delivered(freed) + Seq::<Act>::empty() =~= delivered(freed));
                Ok(join(released, ProtocolAction::Noop))
            } else {
                Err(e)
            },
        };
        assert((self@, outcome(r)) == start.data_in(raw@, p, q, t));
        r
    }

    /// Time passed.
    fn handle_tick(&mut self, now: Instant) -> (r: Result<ProtocolAction, ProtocolError>)
        requires
            old(self).wf(),
        ensures
            final(self).wf(),
            exists|p: Seq<u8>| (final(self)@, outcome(r)) == #[trigger] old(self)@.ticked(p, now.nanos as int),
            r matches Ok(a) ==> tidy(a),
    {
        let ghost start = self@;
        let ghost t = now.nanos as int;
        let built = self.build_ack_if_due(now);
        let ghost mid = self@;
        let ghost p = choose|p: Seq<u8>| (mid, maybe_datagram(built)) == #[trigger] start.ack_if_due(p, t);
        let ack = match built {
            Ok(a) => a,
            Err(e) => {
                assert((self@, Err::<Seq<Act>, Fault>(fault(e))) == start.ticked(p, t));
                return Err(e);
            },
        };
        let ghost ack0 = opt_bytes(ack);
        let ms: u64 = self.cc.rto().max(self.rto).as_millis();
        let base_ms: u64 = if ms >= 1 {
            ms
        } else {
            1
        };
        let grace: u8 = self.max_retries.saturating_add(2);
        let budget: usize = self.cc.retransmit_budget();
        self.sent_history.evict(grace);
        let out = self.sent_history.resend(budget, base_ms, now);
        let ghost again = sends(byte_views(out@));
        let mut list: Vec<ProtocolAction> = Vec::new();
        assert(singles(list@) =~= Seq::empty());
        push_datagram(&mut list, ack);
        assert(singles(list@) =~= send_if(ack0));
        push_datagrams(&mut list, out);
        let ghost whole = send_if(ack0) + again;
        assert(singles(list@) =~= whole);
        assert(normal(whole) =~= whole) by {
            if whole.len() == 1 {
                if ack0 is None {
                    assert(whole[0] == again[0]);
                }
            }
        }
        let r = collate(list);
        assert(self@ =~= start.ticked(p, t).0);
        assert((self@, Ok::<Seq<Act>, Fault>(acts_of(r))) == start.ticked(p, t));
        Ok(r)
    }
}

// ── The handshake and events ─────────────────────────────────────────────────

/// What is said of a handshake packet that ends before its message does.
fn truncated_text(expected: usize, got: usize) -> (r: String)
    ensures
        r@ == "handshake truncated: expected "@ + decimal(expected as nat) + " noise bytes, got "@ + decimal(got as nat),
{
    let mut v: Vec<char> = Vec::new();
    put_str(&mut v, "handshake truncated: expected ");
    put_decimal(&mut v, expected as u64);
    put_str(&mut v, " noise bytes, got ");
    put_decimal(&mut v, got as u64);
    string_of(&v)
}

/// What is said of a handshake message that cannot be read.
fn unread_text(raw_len: usize, noise_len: usize) -> (r: String)
    ensures
        r@ == "noise-read: Crypto(\"noise-read\") (raw_len="@ + decimal(raw_len as nat) + ", noise_len="@ + decimal(
            noise_len as nat,
        ) + ")"@,
{
    let mut v: Vec<char> = Vec::new();
    put_str(&mut v, "noise-read: Crypto(\"noise-read\") (raw_len=");
    put_decimal(&mut v, raw_len as u64);
    put_str(&mut v, ", noise_len=");
    put_decimal(&mut v, noise_len as u64);
    put_str(&mut v, ")");
    string_of(&v)
}

impl ProtocolMachine {
    /// A handshake datagram with the padding that is given.
    fn wrap_datagram_handshake_with(&self, noise_payload: &[u8], pad: &[u8]) -> (r: Vec<u8>)
        requires
            noise_payload@.len() <= 0xffff,
        ensures
            r@ == obfuscated(
                handshake_packet(self@.session_id, noise_payload@, pad@),
                self@.obfuscation_key,
                true,
            ),
    {
        let mut out: Vec<u8> = Vec::new();
        put_u32(&mut out, self.session_id);
        put_u16(&mut out, noise_payload.len() as u16);
        put_slice(&mut out, noise_payload);
        put_slice(&mut out, pad);
        assert(out@ =~= handshake_packet(self@.session_id, noise_payload@, pad@));
        obfuscate_packet_inplace(&mut out, &self.obfuscation_key, true);
        out
    }

    /// A handshake datagram with random padding in the range of the access key.
    fn wrap_datagram_handshake(&self, noise_payload: &[u8]) -> (r: Vec<u8>)
        requires
            self.wf(),
            noise_payload@.len() <= HANDSHAKE_BUFFER,
        ensures
            self@.wraps(r@, noise_payload@),
    {
        let n: usize = self.handshake_pad_min + random_up_to(self.handshake_pad_max - self.handshake_pad_min);
        let pad = random_bytes(n);
        let r = self.wrap_datagram_handshake_with(noise_payload, &pad);
        assert(r@ == obfuscated(
            handshake_packet(self@.session_id, noise_payload@, pad@),
            self@.obfuscation_key,
            true,
        ));
        r
    }

    /// The next handshake message of this end, as a datagram.
    fn next_greeting(&mut self) -> (r: Result<Vec<u8>, ProtocolError>)
        requires
            old(self).wf(),
        ensures
            final(self).wf(),
            match (old(self)@.role, old(self)@.hand) {
                (NoiseRole::Initiator, Hand::Fresh) if old(self)@.can_greet() => {
                    &&& final(self)@ == (Session { hand: final(self)@.hand, ..old(self)@ })
                    &&& final(self)@.hand is Asked
                    &&& r matches Ok(d) && old(self)@.greets(d@)
                },
                (NoiseRole::Responder, Hand::Heard(m)) if old(self)@.can_greet() && noise_greeting(old(self)@.psk, m) is Some => {
                    &&& final(self)@ == (Session { hand: final(self)@.hand, ..old(self)@ })
                    &&& final(self)@.hand is Finished
                    &&& r matches Ok(d) && old(self)@.answers(d@)
                },
                _ => final(self)@ == old(self)@ && (r matches Err(e) && e is Crypto),
            },
    {
        let ghost start = self@;
        let mut out: Vec<u8> = zeros(HANDSHAKE_BUFFER);
        let written = self.noise.write_handshake(&self.handshake_payload, &mut out);
        match written {
            Ok(n) => {
                let message = copy_range(&out, 0, n);
                let d = self.wrap_datagram_handshake(&message);
                proof {
                    lemma_same_wraps(self@, start, d@, message@);
                }
                Ok(d)
            },
            Err(e) => {
                assert(self@ =~= start);
                Err(e)
            },
        }
    }

    /// A handshake packet with its header unmasked.
    fn handle_handshake_inbound(&mut self, raw: &[u8]) -> (r: Result<ProtocolAction, ProtocolError>)
        requires
            old(self).wf(),
        ensures
            final(self).wf(),
            old(self)@.shakes(raw@, final(self)@, outcome(r)),
            r matches Ok(a) ==> tidy(a),
    {
        let ghost start = self@;
        if raw.len() < 6 {
            return Err(ProtocolError::Framing(owned("handshake too short for length prefix")));
        }
        let noise_len: usize = get_u16(raw, 4) as usize;
        if raw.len() < 6 + noise_len {
            return Err(ProtocolError::Framing(truncated_text(noise_len, raw.len() - 6)));
        }
        let ghost message = raw@.subrange(6, 6 + noise_len);
        let mut read_out: Vec<u8> = zeros(HANDSHAKE_BUFFER);
        let read = self.noise.read_handshake(slice_subrange(raw, 6, 6 + noise_len), &mut read_out);
        let n: usize = match read {
            Ok(n) => n,
            Err(_) => {
                assert(self@ =~= (Session { hand: self.noise.hand(), ..start }));
                return Err(ProtocolError::Crypto(unread_text(raw.len(), noise_len)));
            },
        };
        let payload = copy_range(&read_out, 0, n);
        let ghost heard = self@;
        assert(heard =~= (Session { hand: self.noise.hand(), ..start }));
        let response = match self.role {
            NoiseRole::Responder => match self.next_greeting() {
                Ok(d) => {
                    assert(start.answers(d@)) by {
                        let noise = choose|noise: Seq<u8>| #[trigger]
                            heard.wraps(d@, noise) && noise.len() == heard.greeting.len() + MESSAGE_OVERHEAD;
                        lemma_same_wraps(heard, start, d@, noise);
                    }
                    Some(d)
                },
                Err(e) => {
                    return Err(e);
                },
            },
            NoiseRole::Initiator => None,
        };
        let role = self.role;
        let split = self.noise.raw_split(role);
        let (send_key, recv_key) = match split {
            Ok(k) => k,
            Err(e) => {
                return Err(e);
            },
        };
        self.send_cipher = Some(SessionCipher::new(&send_key));
        self.recv_cipher = Some(SessionCipher::new(&recv_key));
        self.state = OstpState::Established;
        proof {
            let (a, b) = self.noise.keys();
            assert(self@ =~= (Session {
                state: OstpState::Established,
                send_key: Some(keys_of(start.role, a, b).0),
                recv_key: Some(keys_of(start.role, a, b).1),
                hand: Hand::Finished(a, b),
                ..start
            }));
            assert(outcome(Ok(ProtocolAction::HandshakePayload(payload, response))) matches Ok(acts) && acts =~= seq![
                Act::Greeted(payload@, opt_bytes(response)),
            ]);
        }
        Ok(ProtocolAction::HandshakePayload(payload, response))
    }

    /// A datagram for this session.
    fn handle_inbound(&mut self, raw: Vec<u8>, now: Instant) -> (r: Result<ProtocolAction, ProtocolError>)
        requires
            old(self).wf(),
            !(old(self)@.state is Init),
        ensures
            final(self).wf(),
            old(self)@.receives(raw@, now.nanos as int, final(self)@, outcome(r)),
            r matches Ok(a) ==> tidy(a),
    {
        let mut raw = raw;
        let is_handshake = match self.state {
            OstpState::Handshaking => true,
            _ => false,
        };
        deobfuscate_packet_inplace(&mut raw, &self.obfuscation_key, is_handshake);
        if raw.len() < 4 {
            return Err(ProtocolError::Framing(owned("datagram too short")));
        }
        if get_u32(&raw, 0) != self.session_id {
            return Err(ProtocolError::State(owned("session id mismatch")));
        }
        match self.state {
            OstpState::Handshaking => self.handle_handshake_inbound(&raw),
            OstpState::Established | OstpState::Closing => self.handle_data_inbound(&raw, now),
            _ => Ok(ProtocolAction::Noop),
        }
    }

    /// Builds a reliable packet and sends it.
    fn emit(&mut self, stream_id: u16, kind: FrameKind, payload: Vec<u8>, now: Instant) -> (r: Result<
        ProtocolAction,
        ProtocolError,
    >)
        requires
            old(self).wf(),
        ensures
            final(self).wf(),
            old(self)@.emits(stream_id, kind, payload@, now.nanos as int, final(self)@, outcome(r)),
            r matches Ok(a) ==> {
                &&& tidy(a)
                &&& payload@.len() < 0x1_0000_0000 ==> (acts_of(a)[0] matches Act::Send(d) && holds_payload(
                    d,
                    old(self)@,
                    stream_id,
                    kind,
                    payload@,
                ))
            },
    {
        let ghost start = self@;
        let built = self.build_datagram(stream_id, kind, payload, true, now);
        proof {
            let pad = choose|pad: Seq<u8>| (self@, datagram(built)) == #[trigger] start.built(
                stream_id,
                kind,
                payload@,
                true,
                pad,
                now.nanos as int,
            );
            let (t, r) = start.built(stream_id, kind, payload@, true, pad, now.nanos as int);
            assert(self@ == t);
        }
        match built {
            Ok(d) => Ok(ProtocolAction::SendDatagram(d)),
            Err(e) => Err(e),
        }
    }

    /// Handles an event that happens now.
    pub fn on_event(&mut self, event: OstpEvent) -> (r: Result<ProtocolAction, ProtocolError>)
        requires
            old(self).wf(),
        ensures
            final(self).wf(),
            exists|now: int| #[trigger] old(self)@.steps(event@, now, final(self)@, outcome(r)),
            r matches Ok(a) ==> tidy(a),
            emitted(old(self)@, event@, r),
    {
        let now = self.clock.now();
        self.on_event_at(event, now)
    }

    /// Handles an event that happens at `now`.
    pub fn on_event_at(&mut self, event: OstpEvent, now: Instant) -> (r: Result<ProtocolAction, ProtocolError>)
        requires
            old(self).wf(),
        ensures
            final(self).wf(),
            old(self)@.steps(event@, now.nanos as int, final(self)@, outcome(r)),
            r matches Ok(a) ==> tidy(a),
            emitted(old(self)@, event@, r),
    {
        let ghost start = self@;
        match (self.state, event) {
            (OstpState::Init, OstpEvent::Start) => {
                self.state = OstpState::Handshaking;
                let ghost begun = self@;
                assert(self@ =~= (Session { state: OstpState::Handshaking, ..start }));
                match self.role {
                    NoiseRole::Initiator => match self.next_greeting() {
                        Ok(d) => {
                            assert(start.greets(d@)) by {
                                let noise = choose|noise: Seq<u8>| #[trigger]
                                    begun.wraps(d@, noise) && noise.len() == begun.greeting.len() + MESSAGE_OVERHEAD
                                        && noise_greeting(begun.psk, noise) == Some(begun.greeting);
                                lemma_same_wraps(begun, start, d@, noise);
                            }
                            Ok(ProtocolAction::SendDatagram(d))
                        },
                        Err(e) => Err(e),
                    },
                    NoiseRole::Responder => Ok(ProtocolAction::Noop),
                }
            },
            (OstpState::Init, OstpEvent::Inbound(raw)) => {
                self.state = OstpState::Handshaking;
                assert(self@ =~= (Session { state: OstpState::Handshaking, ..start }));
                self.handle_inbound(raw, now)
            },
            (OstpState::Closed, _) => Ok(ProtocolAction::Noop),
            (_, OstpEvent::Inbound(raw)) => self.handle_inbound(raw, now),
            (OstpState::Established, OstpEvent::Outbound(stream_id, app_data)) => self.emit(
                stream_id,
                FrameKind::Data,
                app_data,
                now,
            ),
            (OstpState::Established, OstpEvent::Close) => {
                self.state = OstpState::Closing;
                assert(self@ =~= (Session { state: OstpState::Closing, ..start }));
                let empty: Vec<u8> = Vec::new();
                assert(empty@ =~= Seq::<u8>::empty());
                self.emit(0, FrameKind::Close, empty, now)
            },
            (OstpState::Established, OstpEvent::Tick) | (OstpState::Closing, OstpEvent::Tick) => self.handle_tick(now),
            (_, OstpEvent::Close) => {
                self.state = OstpState::Closed;
                assert(self@ =~= (Session { state: OstpState::Closed, ..start }));
                Ok(ProtocolAction::Noop)
            },
            _ => Ok(ProtocolAction::Noop),
        }
    }
}

/// What an established session sends for application data is a packet that the
/// peer can read.
pub open spec fn emitted(s: Session, event: Event, r: Result<ProtocolAction, ProtocolError>) -> bool {
    (s.state is Established && event is Outbound && r is Ok && event->Outbound_1.len() < 0x1_0000_0000) ==> (
    acts_of(r->Ok_0)[0] matches Act::Send(d) && holds_payload(
        d,
        s,
        event->Outbound_0,
        FrameKind::Data,
        event->Outbound_1,
    ))
}

/// `n` zero bytes.
fn zeros(n: usize) -> (r: Vec<u8>)
    ensures
        r@.len() == n,
{
    let mut v: Vec<u8> = Vec::new();
    while v.len() < n
        invariant
            v@.len() <= n,
        decreases n - v@.len(),
    {
        v.push(0);
    }
    v
}

/// Handshake datagrams do not depend on how far a session has come.
proof fn lemma_same_wraps(s: Session, t: Session, d: Seq<u8>, noise: Seq<u8>)
    requires
        s.wraps(d, noise),
        t.session_id == s.session_id,
        t.obfuscation_key == s.obfuscation_key,
        t.pad_min == s.pad_min,
        t.pad_max == s.pad_max,
    ensures
        t.wraps(d, noise),
{
    let pad = choose|pad: Seq<u8>|
        #![trigger handshake_packet(s.session_id, noise, pad)]
        s.pad_min <= pad.len() <= s.pad_max && d == obfuscated(
            handshake_packet(s.session_id, noise, pad),
            s.obfuscation_key,
            true,
        );
    assert(d == obfuscated(handshake_packet(t.session_id, noise, pad), t.obfuscation_key, true));
}

/// What a frame gives the application.
fn delivery_of(packet: FramedPacket) -> (r: Delivery)
    ensures
        r@ == item_of(packet@),
{
    match packet.header.kind {
        FrameKind::Data => Delivery { data: Some((packet.header.stream_id, packet.payload)) },
        _ => Delivery { data: None },
    }
}

proof fn lemma_noticing_keeps_the_window(s: Session, f: Frame, now: int)
    ensures
        s.noticed(f, now).0.recv == s.recv,
{
}

/// A datagram that, to an end with the same id and header key that receives
/// with `key`, is packet `nonce` with frame `f`.
pub open spec fn carries(d: Seq<u8>, s: Session, key: Seq<u8>, nonce: u64, f: Frame) -> bool {
    let raw = deobfuscated(d, s.obfuscation_key, false);
    &&& raw.len() > 12
    &&& u32_at(raw, 0) == s.session_id
    &&& u64_at(raw, 4) == nonce
    &&& aead_open(
        key,
        packet_nonce(nonce as int),
        be32(s.session_id as int),
        raw.subrange(12, raw.len() as int),
    ) == Some(f.bytes())
    &&& f.consistent()
}

/// A datagram that carries a payload as the next packet of a session.
pub open spec fn holds_payload(d: Seq<u8>, s: Session, stream: u16, kind: FrameKind, payload: Seq<u8>) -> bool {
    exists|pad: Seq<u8>|
        carries(d, s, s.send_key->0, s.send_nonce, #[trigger] frame_of(stream, kind, payload, pad)) && pad.len()
            <= 0xffff
}

proof fn lemma_carried(s: Session, key: Seq<u8>, nonce: u64, c: Seq<u8>, f: Frame)
    requires
        c.len() >= 16,
        aead_open(key, packet_nonce(nonce as int), be32(s.session_id as int), c) == Some(f.bytes()),
    ensures
        f.consistent() ==> carries(
            obfuscated(data_packet(s.session_id, nonce, c), s.obfuscation_key, false),
            s,
            key,
            nonce,
            f,
        ),
{
    let plain = data_packet(s.session_id, nonce, c);
    deobfuscation_recovers_the_packet(plain, s.obfuscation_key, false);
    assert(plain.subrange(0, 4) =~= be32(s.session_id as int));
    assert(plain.subrange(4, 12) =~= be64(nonce as int));
    assert(plain.subrange(12, plain.len() as int) =~= c);
    lemma_be32(plain, 0, s.session_id as int);
    lemma_be64(plain, 4, nonce as int);
}

/// The padder of a configuration.
pub open spec fn pads_as(padder: AdaptivePadder, c: ProtocolConfig) -> bool {
    forall|n: int| #[trigger]
        padder.room(n) == crate::framing::padding::padding_room(
            c.mtu as int,
            c.max_padding as int,
            c.padding_strategy,
            n,
        )
}

/// A session begins as it is configured: it has sent and received nothing, has no keys, and the
/// values that would stop it are raised to the smallest that work.
pub proof fn sessions_start_as_configured(c: ProtocolConfig, padder: AdaptivePadder, now: int)
    ensures
        ({
            let s = initial(c, padder, now);
            &&& s.role == c.role && s.session_id == c.session_id && s.obfuscation_key == c.obfuscation_key@ && s.psk == c.psk@
            &&& s.greeting == c.handshake_payload@
            &&& s.state is Init && s.hand is Fresh && s.send_key is None && s.recv_key is None
            &&& s.send_nonce == 0 && s.recv.expected == 0 && s.recv.held.len() == 0 && s.recv.highest is None && s.sent.len() == 0
            &&& !s.ack_pending
            &&& s.max_retries == (if c.max_retries == 0 {
                1int
            } else {
                c.max_retries as int
            })
            &&& c.ack_delay_ms <= 1000 ==> s.ack_delay == (if c.ack_delay_ms == 0 {
                1int
            } else {
                c.ack_delay_ms as int
            }) * 1_000_000
            &&& c.rto_ms <= 100_000 ==> s.rto == (if c.rto_ms == 0 {
                1int
            } else {
                c.rto_ms as int
            }) * 1_000_000
            &&& s.pad_min >= 8 && s.pad_min >= c.handshake_pad_min && s.pad_max >= c.handshake_pad_max && s.pad_max
                >= c.handshake_pad_min + 16
            &&& c.handshake_pad_min >= 8 ==> s.pad_min == c.handshake_pad_min
            &&& c.handshake_pad_max >= c.handshake_pad_min + 16 ==> s.pad_max == c.handshake_pad_max
        }),
{
}

} // verus!
