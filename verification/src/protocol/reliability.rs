//! How packets get through in spite of losses: what is received is acknowledged, what is
//! missing is asked for, and what is asked for goes out again.

use vstd::prelude::*;

use crate::bytes::{be32, be64, u32_at, u64_at};
use crate::congestion::less;
use crate::crypto::aead::{aead_seal, packet_nonce};
use crate::crypto::obfuscation::{deobfuscated, obfuscated};
use crate::framing::frame::{frame_round_trips, Frame};
use crate::framing::FrameKind;
use crate::protocol::ack::{
    ack_payload, ack_ranges_round_trip, acknowledgements_are_sound, in_ranges, parse_ranges, received_ranges,
    received_ranges_are_exact, runs, trimmed_ranges,
};
use crate::protocol::machine::carries;
use crate::protocol::receive::{nonces, packets_leave_in_order, Item, Waiting};
use crate::protocol::sent::{
    acknowledged_bytes_leave, acknowledged_packets_leave, in_flight_bytes, requested_packets_are_given, unacknowledged,
    Sent,
};
use crate::protocol::session::{
    delivered, fitted, frame_of, item_of, normal, send_if, Act, Event, Fault, OstpState, Session,
};

verus! {

broadcast use crate::bytes::group_big_endian;

/// The datagram of a frame as the next packet of a session; nothing where it cannot be sealed.
pub open spec fn packet_of(s: Session, f: Frame) -> Option<Seq<u8>> {
    match s.send_key {
        None => None,
        Some(key) => match aead_seal(key, packet_nonce(s.send_nonce as int), be32(s.session_id as int), f.bytes()) {
            None => None,
            Some(c) => Some(
                obfuscated(be32(s.session_id as int) + be64(s.send_nonce as int) + c, s.obfuscation_key, false),
            ),
        },
    }
}

/// A frame that asks for packet `n`.
pub open spec fn is_request(f: Frame, n: u64) -> bool {
    f.header.kind is Nack && f.header.stream_id == 0 && f.payload == be64(n as int) && f.header.version == 1
}

/// A frame of a stream's data.
pub open spec fn is_data(f: Frame, stream: u16, payload: Seq<u8>) -> bool {
    f.header.kind is Data && f.header.stream_id == stream && f.payload == payload && f.header.version == 1
}

/// A frame that ends a session.
pub open spec fn is_close(f: Frame) -> bool {
    f.header.kind is Close && f.header.stream_id == 0 && f.payload.len() == 0 && f.header.version == 1
}

/// A frame that acknowledges what a session received: everything in order, nothing that was
/// not received, and, while few packets wait, each of these.
pub open spec fn is_acknowledgement(f: Frame, s: Session) -> bool {
    &&& f.header.kind is Ack && f.header.stream_id == 0 && f.header.version == 1
    &&& parse_ranges(f.payload) matches Some(r) && forall|n: u64| #[trigger]
        in_ranges(n, r) ==> n < s.recv.expected || nonces(s.recv.held).contains(n)
    &&& parse_ranges(f.payload) matches Some(r) && forall|n: u64|
        n < s.recv.expected ==> #[trigger] in_ranges(n, r)
    &&& s.recv.held.len() <= 7 ==> (parse_ranges(f.payload) matches Some(r) && forall|n: u64|
        nonces(s.recv.held).contains(n) ==> #[trigger] in_ranges(n, r))
}

proof fn lemma_runs_len(keys: Seq<u64>)
    ensures
        runs(keys).len() <= keys.len(),
    decreases keys.len(),
{
    if keys.len() > 0 {
        lemma_runs_len(keys.drop_last());
    }
}

proof fn lemma_acknowledgement(s: Session, pad: Seq<u8>)
    requires
        s.recv.wf(),
        ack_payload(s.recv.expected, nonces(s.recv.held)).len() > 0,
    ensures
        is_acknowledgement(
            frame_of(0, FrameKind::Ack, ack_payload(s.recv.expected, nonces(s.recv.held)), pad),
            s,
        ),
{
    let keys = nonces(s.recv.held);
    let all = received_ranges(s.recv.expected, keys);
    let r = trimmed_ranges(all);
    assert forall|i: int, j: int| 0 <= i < j < keys.len() implies keys[i] < keys[j] by {
        assert(s.recv.held[i].nonce < s.recv.held[j].nonce);
    }
    lemma_runs_len(keys);
    ack_ranges_round_trip(r);
    assert forall|n: u64| #[trigger] in_ranges(n, r) implies n < s.recv.expected || keys.contains(n) by {
        acknowledgements_are_sound(s.recv.expected, keys, n);
    }
    assert forall|n: u64| n < s.recv.expected implies #[trigger] in_ranges(n, r) by {
        acknowledgements_are_sound(s.recv.expected, keys, n);
    }
    if s.recv.held.len() <= 7 {
        assert(r == all);
        assert forall|n: u64| keys.contains(n) implies #[trigger] in_ranges(n, r) by {
            received_ranges_are_exact(s.recv.expected, keys, n);
        }
    }
}

/// What an authentic packet within the window does.
proof fn lemma_authentic(
    s: Session,
    key: Seq<u8>,
    d: Seq<u8>,
    nonce: u64,
    f: Frame,
    now: int,
    after: Session,
    outcome: Result<Seq<Act>, Fault>,
) -> (pads: (Seq<u8>, Seq<u8>))
    requires
        s.state is Established || s.state is Closing,
        carries(d, s, key, nonce, f),
        s.recv_key == Some(key),
        !s.recv.stalled(s.gap_timeout(), now),
        s.recv.expected <= nonce <= s.recv.furthest(),
        s.steps(Event::Inbound(d), now, after, outcome),
    ensures
        (after, outcome) == (Session { recv: s.recv.authenticated(nonce), ..s }).opened(nonce, f, pads.0, pads.1, now),
{
    let raw = deobfuscated(d, s.obfuscation_key, false);
    let (p, q) = choose|p: Seq<u8>, q: Seq<u8>| (after, outcome) == #[trigger] s.data_in(raw, p, q, now);
    let a = Session { recv: s.recv, ack_pending: s.ack_pending || false, ..s };
    assert(a =~= s);
    assert(f.bytes() + Seq::<u8>::empty() =~= f.bytes());
    frame_round_trips(f, Seq::empty());
    (p, q)
}

proof fn lemma_built_unreliable(s: Session, kind: FrameKind, payload: Seq<u8>, pad: Seq<u8>, now: int)
    ensures
        ({
            let t = s.built(0, kind, payload, false, pad, now).0;
            t.cc == s.cc && t.ack_pending == s.ack_pending && t.last_ack == s.last_ack && t.ack_delay == s.ack_delay
                && t.recv == s.recv && t.last_nack == s.last_nack
        }),
{
}

proof fn lemma_nack_keeps_the_rest(s: Session, in_order: bool, pad: Seq<u8>, now: int)
    ensures
        ({
            let t = s.nack_if_due(in_order, pad, now).0;
            t.cc == s.cc && t.ack_pending == s.ack_pending && t.last_ack == s.last_ack && t.ack_delay == s.ack_delay
                && t.recv == s.recv
        }),
        in_order ==> s.nack_if_due(in_order, pad, now) == (s, None::<Seq<u8>>),
{
    let a = Session { last_nack: now, ..s };
    lemma_built_unreliable(a, FrameKind::Nack, be64(a.recv.expected as int), pad, now);
}

proof fn lemma_ack_keeps_the_rest(s: Session, pad: Seq<u8>, now: int)
    ensures
        s.ack_if_due(pad, now).0.cc == s.cc,
        s.ack_if_due(pad, now).0.recv == s.recv,
        !s.ack_pending || less(now, s.last_ack) < s.ack_delay ==> s.ack_if_due(pad, now) == (
            s,
            Ok::<Option<Seq<u8>>, Fault>(None),
        ),
{
    lemma_built_unreliable(s, FrameKind::Ack, ack_payload(s.recv.expected, nonces(s.recv.held)), pad, now);
}

/// What taking a packet in its turn, or out of it, does beside the delivery.
proof fn lemma_ordered(
    t: Session,
    nonce: u64,
    item: Item,
    resent: Option<Seq<u8>>,
    p: Seq<u8>,
    q: Seq<u8>,
    now: int,
) -> (between: Seq<Act>)
    ensures
        ({
            let (after, outcome) = t.ordered(nonce, item, resent, p, q, now);
            let (recv, taken) = t.recv.taken(nonce, item, now);
            &&& after.cc == t.cc
            &&& after.recv == recv
            &&& outcome matches Ok(acts) ==> (taken matches Some(items) && acts == normal(
                send_if(resent) + between + delivered(items),
            ) && forall|i: int| 0 <= i < between.len() ==> #[trigger] between[i] is Send)
            &&& taken is Some && (!t.ack_pending || less(now, t.last_ack) < t.ack_delay) ==> outcome is Ok
        }),
{
    let (recv, taken) = t.recv.taken(nonce, item, now);
    let a = Session { recv, ..t };
    let in_order = nonce == t.recv.expected;
    lemma_nack_keeps_the_rest(a, in_order, p, now);
    let (b, nack) = a.nack_if_due(in_order, p, now);
    lemma_ack_keeps_the_rest(b, q, now);
    let (c, acked) = b.ack_if_due(q, now);
    let ack = match acked {
        Ok(x) => x,
        Err(_) => None,
    };
    let between = send_if(nack) + send_if(ack);
    if let Some(items) = taken {
        assert(send_if(resent) + send_if(nack) + send_if(ack) + delivered(items) =~= send_if(resent) + between
            + delivered(items));
    }
    between
}

/// What one end asks for, the other sends again: a request for a packet that is in the
/// history puts exactly the datagram on the wire that went out under its number, and counts
/// its bytes as lost. That fails only where an acknowledgement that is due cannot be built or
/// the packet numbers run out.
pub proof fn requested_packets_go_out_again(
    s: Session,
    key: Seq<u8>,
    d: Seq<u8>,
    nonce: u64,
    f: Frame,
    i: int,
    now: int,
    after: Session,
    outcome: Result<Seq<Act>, Fault>,
)
    requires
        s.state is Established || s.state is Closing,
        carries(d, s, key, nonce, f),
        s.recv_key == Some(key),
        !s.recv.stalled(s.gap_timeout(), now),
        s.recv.expected <= nonce <= s.recv.furthest(),
        0 <= i < s.sent.len(),
        0 <= s.sent[i].retries <= 255,
        is_request(f, s.sent[i].nonce),
        forall|j: int| i < j < s.sent.len() ==> (#[trigger] s.sent[j]).nonce != s.sent[i].nonce,
        s.steps(Event::Inbound(d), now, after, outcome),
    ensures
        outcome matches Ok(acts) ==> acts.contains(Act::Send(s.sent[i].bytes)),
        nonce < u64::MAX && s.recv.held.len() == 0 && (!s.ack_pending || less(now, s.last_ack) < s.ack_delay)
            ==> outcome is Ok,
        after.cc.in_flight == less(s.cc.in_flight, s.sent[i].bytes.len() as int),
        s.cc.losses < u32::MAX ==> after.cc.losses == s.cc.losses + 1,
{
    let (p, q) = lemma_authentic(s, key, d, nonce, f, now, after, outcome);
    let b = Session { recv: s.recv.authenticated(nonce), ..s };
    let n = s.sent[i].nonce;
    assert(f.payload.len() == 8);
    assert(u64_at(f.payload, 0) == n) by {
        assert(f.payload.subrange(0, 8) =~= be64(n as int));
        crate::bytes::lemma_be64(f.payload, 0, n as int);
    }
    requested_packets_are_given(s.sent, i, now);
    let (c, resent) = b.asked(n, now);
    assert(b.noticed(f, now) == (c, Ok::<Option<Seq<u8>>, Fault>(Some(s.sent[i].bytes))));
    let between = lemma_ordered(c, nonce, item_of(f), resent, p, q, now);
    assert((after, outcome) == c.ordered(nonce, item_of(f), resent, p, q, now));
    let (recv, taken) = c.recv.taken(nonce, item_of(f), now);
    if let (Ok(acts), Some(items)) = (outcome, taken) {
        let all = send_if(resent) + between + delivered(items);
        assert(all[0] == Act::Send(s.sent[i].bytes));
        assert(normal(all) == all);
    }
}

proof fn lemma_request(e: Session, p: Seq<u8>, now: int) -> (g: Frame)
    requires
        now - e.last_nack >= 30_000_000,
        2 * (now - e.last_nack) > e.cc.rto(),
        e.send_nonce < u64::MAX,
    ensures
        is_request(g, e.recv.expected),
        e.nack_if_due(false, p, now).1 == packet_of(e, g),
        e.nack_if_due(false, p, now).0.last_nack == now,
        e.nack_if_due(false, p, now).0.recv == e.recv,
{
    assert(be64(e.recv.expected as int).len() == 8);
    frame_of(0, FrameKind::Nack, be64(e.recv.expected as int), fitted(p, e.padder.room(8)))
}

proof fn lemma_ack_keeps_the_request(h: Session, q: Seq<u8>, now: int)
    ensures
        h.ack_if_due(q, now).0.last_nack == h.last_nack,
        h.ack_if_due(q, now).0.recv == h.recv,
{
}

/// A packet that comes out of turn has the missing one asked for by its number, at once where
/// the last request is half a timeout ago, and 30 milliseconds at least. The request goes out
/// unless it cannot be sealed.
pub proof fn missing_packets_are_asked_for(
    s: Session,
    key: Seq<u8>,
    d: Seq<u8>,
    nonce: u64,
    f: Frame,
    now: int,
    after: Session,
    outcome: Result<Seq<Act>, Fault>,
)
    requires
        s.state is Established || s.state is Closing,
        carries(d, s, key, nonce, f),
        s.recv_key == Some(key),
        !s.recv.stalled(s.gap_timeout(), now),
        s.recv.expected < nonce <= s.recv.furthest(),
        !(f.header.kind is Ack),
        !(f.header.kind is Nack),
        now - s.last_nack >= 30_000_000,
        2 * (now - s.last_nack) > s.cc.rto(),
        s.send_nonce < u64::MAX,
        s.steps(Event::Inbound(d), now, after, outcome),
    ensures
        outcome matches Ok(acts) ==> exists|g: Frame| #[trigger]
            is_request(g, s.recv.expected) && (packet_of(s, g) matches Some(r) ==> acts.contains(Act::Send(r))),
        after.last_nack == now,
        after.recv.expected == s.recv.expected,
{
    let (p, q) = lemma_authentic(s, key, d, nonce, f, now, after, outcome);
    let b = Session { recv: s.recv.authenticated(nonce), ..s };
    let (c, noticed) = b.noticed(f, now);
    assert(noticed == Ok::<Option<Seq<u8>>, Fault>(None));
    let (recv, taken) = c.recv.taken(nonce, item_of(f), now);
    assert(taken == Some(Seq::<Item>::empty()));
    let e = Session { recv, ..c };
    let g = lemma_request(e, p, now);
    assert(packet_of(e, g) == packet_of(s, g));
    let (h, request) = e.nack_if_due(false, p, now);
    lemma_ack_keeps_the_request(h, q, now);
    if let (Ok(acts), Some(r)) = (outcome, request) {
        assert(acts[0] == Act::Send(r));
    }
}

/// What was received is acknowledged: where an acknowledgement is owed and the last one is
/// long enough ago, a tick begins with one that speaks of everything that came in order, of
/// nothing that did not come, and, while few packets wait, of each of these.
pub proof fn received_packets_are_acknowledged(s: Session, now: int, after: Session, outcome: Result<Seq<Act>, Fault>)
    requires
        s.state is Established || s.state is Closing,
        s.recv.wf(),
        s.recv.expected > 0 || s.recv.held.len() > 0,
        s.ack_pending,
        now - s.last_ack >= s.ack_delay,
        s.ack_delay >= 0,
        s.send_nonce < u64::MAX,
        s.steps(Event::Tick, now, after, outcome),
    ensures
        exists|g: Frame| #[trigger]
            is_acknowledgement(g, s) && match packet_of(s, g) {
                Some(d) => outcome matches Ok(acts) && acts.len() > 0 && acts[0] == Act::Send(d) && !after.ack_pending
                    && after.last_ack == now,
                None => outcome is Err,
            },
{
    let p = choose|p: Seq<u8>| (after, outcome) == #[trigger] s.ticked(p, now);
    let payload = ack_payload(s.recv.expected, nonces(s.recv.held));
    let keys = nonces(s.recv.held);
    if s.recv.expected == 0 {
        assert(keys.len() > 0);
        assert(runs(keys).len() > 0);
    }
    assert(received_ranges(s.recv.expected, keys).len() > 0);
    assert(payload.len() > 0);
    let g = frame_of(0, FrameKind::Ack, payload, fitted(p, s.padder.room(payload.len() as int)));
    lemma_acknowledgement(s, fitted(p, s.padder.room(payload.len() as int)));
    assert(s.ack_if_due(p, now) == s.ack_built(p, now));
    let built = s.built(0, FrameKind::Ack, payload, false, p, now);
    match packet_of(s, g) {
        Some(d) => {
            assert(built.1 == Ok::<Seq<u8>, Fault>(d));
            if let Ok(acts) = outcome {
                assert(acts[0] == Act::Send(d));
            }
        },
        None => {
            assert(built.1 is Err);
        },
    }
}

/// Data that comes is owed an acknowledgement: it is remembered while the last one is too
/// recent.
pub proof fn data_is_owed_an_acknowledgement(
    s: Session,
    key: Seq<u8>,
    d: Seq<u8>,
    nonce: u64,
    f: Frame,
    now: int,
    after: Session,
    outcome: Result<Seq<Act>, Fault>,
)
    requires
        s.state is Established || s.state is Closing,
        carries(d, s, key, nonce, f),
        s.recv_key == Some(key),
        !s.recv.stalled(s.gap_timeout(), now),
        s.recv.expected <= nonce <= s.recv.furthest(),
        f.header.kind is Data || f.header.kind is KeepAlive || f.header.kind is Close,
        less(now, s.last_ack) < s.ack_delay,
        s.steps(Event::Inbound(d), now, after, outcome),
    ensures
        after.ack_pending,
{
    let (p, q) = lemma_authentic(s, key, d, nonce, f, now, after, outcome);
}

/// A packet that was received before is answered with an acknowledgement at once, so that the
/// other end stops sending it.
pub proof fn repeated_packets_are_acknowledged(
    s: Session,
    d: Seq<u8>,
    now: int,
    after: Session,
    outcome: Result<Seq<Act>, Fault>,
)
    requires
        s.state is Established || s.state is Closing,
        s.recv.wf(),
        !s.recv.stalled(s.gap_timeout(), now),
        ({
            let raw = deobfuscated(d, s.obfuscation_key, false);
            raw.len() >= 12 && u32_at(raw, 0) == s.session_id && u64_at(raw, 4) < s.recv.expected
        }),
        s.send_nonce < u64::MAX,
        s.steps(Event::Inbound(d), now, after, outcome),
    ensures
        exists|g: Frame| #[trigger]
            is_acknowledgement(g, s) && match packet_of(s, g) {
                Some(a) => outcome == Ok::<Seq<Act>, Fault>(seq![Act::Send(a)]),
                None => outcome is Err,
            },
        after.recv == s.recv,
{
    let raw = deobfuscated(d, s.obfuscation_key, false);
    let (p, q) = choose|p: Seq<u8>, q: Seq<u8>| (after, outcome) == #[trigger] s.data_in(raw, p, q, now);
    let a = Session { recv: s.recv, ack_pending: s.ack_pending || false, ..s };
    assert(a =~= s);
    let payload = ack_payload(s.recv.expected, nonces(s.recv.held));
    assert(payload.len() > 0);
    let g = frame_of(0, FrameKind::Ack, payload, fitted(q, s.padder.room(payload.len() as int)));
    lemma_acknowledgement(s, fitted(q, s.padder.room(payload.len() as int)));
    let built = s.built(0, FrameKind::Ack, payload, false, q, now);
    match packet_of(s, g) {
        Some(x) => {
            assert(built.1 == Ok::<Seq<u8>, Fault>(x));
        },
        None => {
            assert(built.1 is Err);
        },
    }
}

/// What the other end acknowledges leaves the history, and nothing else does; its bytes are no
/// longer in flight.
pub proof fn acknowledgements_empty_the_history(
    s: Session,
    key: Seq<u8>,
    d: Seq<u8>,
    nonce: u64,
    f: Frame,
    ranges: Seq<(u64, u64)>,
    now: int,
    after: Session,
    outcome: Result<Seq<Act>, Fault>,
)
    requires
        s.state is Established || s.state is Closing,
        carries(d, s, key, nonce, f),
        s.recv_key == Some(key),
        !s.recv.stalled(s.gap_timeout(), now),
        s.recv.expected <= nonce <= s.recv.furthest(),
        f.header.kind is Ack,
        parse_ranges(f.payload) == Some(ranges),
        s.sent.len() + 2 <= s.max_sent,
        s.steps(Event::Inbound(d), now, after, outcome),
    ensures
        forall|p: Sent| #[trigger]
            s.sent.contains(p) ==> (after.sent.contains(p) <== !in_ranges(p.nonce, ranges)),
        forall|p: Sent|
            p.reliable && #[trigger] after.sent.contains(p) ==> s.sent.contains(p) && !in_ranges(p.nonce, ranges),
        ({
            let settled = in_flight_bytes(s.sent) - in_flight_bytes(unacknowledged(s.sent, ranges));
            settled <= u64::MAX ==> after.cc.in_flight == if settled > 0 {
                less(s.cc.in_flight, settled)
            } else {
                s.cc.in_flight
            }
        }),
{
    let (pa, qa) = lemma_authentic(s, key, d, nonce, f, now, after, outcome);
    let b = Session { recv: s.recv.authenticated(nonce), ..s };
    let c = b.acknowledged(ranges, now);
    acknowledged_bytes_leave(s.sent, ranges);
    let left = unacknowledged(s.sent, ranges);
    lemma_left(s.sent, ranges);
    assert(b.noticed(f, now) == (c, Ok::<Option<Seq<u8>>, Fault>(None)));
    let (recv, taken) = c.recv.taken(nonce, item_of(f), now);
    let e = Session { recv, ..c };
    let in_order = nonce == c.recv.expected;
    let g = e.nack_if_due(in_order, pa, now).0;
    let h = g.ack_if_due(qa, now).0;
    lemma_control_is_added(e, in_order, pa, qa, now);
    assert(after.sent == e.sent || after.sent == h.sent);
    assert forall|p: Sent| #[trigger] s.sent.contains(p) && !in_ranges(p.nonce, ranges) implies after.sent.contains(p) by {
        acknowledged_packets_leave(s.sent, ranges, p);
        assert(left.contains(p));
    }
    assert forall|p: Sent| p.reliable && #[trigger] after.sent.contains(p) implies s.sent.contains(p) && !in_ranges(
        p.nonce,
        ranges,
    ) by {
        acknowledged_packets_leave(s.sent, ranges, p);
    }
}

proof fn lemma_left(h: Seq<Sent>, ranges: Seq<(u64, u64)>)
    ensures
        unacknowledged(h, ranges).len() <= h.len(),
        in_flight_bytes(unacknowledged(h, ranges)) >= 0,
    decreases h.len(),
{
    if h.len() > 0 {
        lemma_left(h.drop_last(), ranges);
        let u = unacknowledged(h.drop_last(), ranges);
        assert(u.push(h.last()).drop_last() =~= u);
    }
}

/// Requests and acknowledgements that go out are put behind the packets of the history, and
/// are not reliable.
proof fn lemma_control_is_added(e: Session, in_order: bool, p: Seq<u8>, q: Seq<u8>, now: int)
    requires
        e.sent.len() + 2 <= e.max_sent,
    ensures
        ({
            let g = e.nack_if_due(in_order, p, now).0;
            let h = g.ack_if_due(q, now).0;
            &&& g.cc == e.cc && h.cc == e.cc
            &&& forall|x: Sent| #[trigger] e.sent.contains(x) ==> h.sent.contains(x)
            &&& forall|x: Sent| x.reliable && #[trigger] h.sent.contains(x) ==> e.sent.contains(x)
        }),
{
    let g = e.nack_if_due(in_order, p, now).0;
    let h = g.ack_if_due(q, now).0;
    assert(g.sent == e.sent || g.sent == e.sent.push(g.sent.last()) && !g.sent.last().reliable && g.sent.len()
        == e.sent.len() + 1) by {
        let built = (Session { last_nack: now, ..e }).nack_built(p, now).0;
        if built.sent.len() > 0 {
            assert(built.sent.last() == built.sent[built.sent.len() - 1]);
        }
    }
    assert(h.sent == g.sent || h.sent == g.sent.push(h.sent.last()) && !h.sent.last().reliable && h.sent.len()
        == g.sent.len() + 1) by {
        let built = g.ack_built(q, now).0;
        if built.sent.len() > 0 {
            assert(built.sent.last() == built.sent[built.sent.len() - 1]);
        }
    }
    lemma_pushed(e.sent, g.sent);
    lemma_pushed(g.sent, h.sent);
}

proof fn lemma_pushed(a: Seq<Sent>, b: Seq<Sent>)
    requires
        b == a || b == a.push(b.last()) && !b.last().reliable && b.len() == a.len() + 1,
    ensures
        forall|x: Sent| #[trigger] a.contains(x) ==> b.contains(x),
        forall|x: Sent| x.reliable && #[trigger] b.contains(x) ==> a.contains(x),
{
    assert forall|x: Sent| #[trigger] a.contains(x) implies b.contains(x) by {
        let i = choose|i: int| 0 <= i < a.len() && a[i] == x;
        assert(b[i] == x);
    }
    assert forall|x: Sent| x.reliable && #[trigger] b.contains(x) implies a.contains(x) by {
        let i = choose|i: int| 0 <= i < b.len() && b[i] == x;
        if i < a.len() {
            assert(a[i] == x);
        } else {
            assert(b.last() == b[b.len() - 1]);
        }
    }
}

/// Data that the application hands over goes out in one packet with the next number, is
/// remembered until it is acknowledged, and is in flight.
pub proof fn data_goes_out_and_is_remembered(
    s: Session,
    stream: u16,
    payload: Seq<u8>,
    now: int,
    after: Session,
    outcome: Result<Seq<Act>, Fault>,
)
    requires
        s.state is Established,
        s.max_sent >= 1,
        s.send_nonce < u64::MAX,
        s.steps(Event::Outbound(stream, payload), now, after, outcome),
    ensures
        exists|g: Frame| #[trigger]
            is_data(g, stream, payload) && match packet_of(s, g) {
                Some(d) => {
                    &&& outcome == Ok::<Seq<Act>, Fault>(seq![Act::Send(d)])
                    &&& after.send_nonce == s.send_nonce + 1
                    &&& after.sent.len() > 0 && after.sent.last() == (Sent {
                        nonce: s.send_nonce,
                        bytes: d,
                        last_sent: now,
                        retries: 0,
                        reliable: true,
                    })
                    &&& s.cc.in_flight + d.len() <= u64::MAX ==> after.cc.in_flight == s.cc.in_flight + d.len()
                },
                None => outcome is Err,
            },
        after.state is Established,
        after.recv == s.recv,
{
    let p = choose|p: Seq<u8>|
        #![trigger s.built(stream, FrameKind::Data, payload, true, p, now)]
        {
            let (t, r) = s.built(stream, FrameKind::Data, payload, true, p, now);
            after == t && outcome == match r {
                Ok(d) => Ok::<Seq<Act>, Fault>(seq![Act::Send(d)]),
                Err(e) => Err::<Seq<Act>, Fault>(e),
            }
        };
    let g = frame_of(stream, FrameKind::Data, payload, fitted(p, s.padder.room(payload.len() as int)));
    assert(is_data(g, stream, payload));
    let (t, r) = s.built(stream, FrameKind::Data, payload, true, p, now);
    match packet_of(s, g) {
        Some(d) => {
            assert(r == Ok::<Seq<u8>, Fault>(d));
            assert(after.sent.last() == after.sent[after.sent.len() - 1]);
        },
        None => {
            assert(r is Err);
        },
    }
}

/// An end that closes tells the other one, and is closing from then on; outside an
/// established session there is nobody to tell, and it is closed at once.
pub proof fn closing_is_told(s: Session, now: int, after: Session, outcome: Result<Seq<Act>, Fault>)
    requires
        s.steps(Event::Close, now, after, outcome),
        s.send_nonce < u64::MAX,
    ensures
        s.state is Established ==> after.state is Closing && exists|g: Frame| #[trigger]
            is_close(g) && match packet_of(s, g) {
                Some(d) => outcome == Ok::<Seq<Act>, Fault>(seq![Act::Send(d)]),
                None => outcome is Err,
            },
        !(s.state is Established) ==> after.state is Closed && outcome == Ok::<Seq<Act>, Fault>(Seq::empty()),
{
    if s.state is Established {
        let c = Session { state: OstpState::Closing, ..s };
        let none = Seq::<u8>::empty();
        let p = choose|p: Seq<u8>|
            #![trigger c.built(0, FrameKind::Close, none, true, p, now)]
            {
                let (t, r) = c.built(0, FrameKind::Close, none, true, p, now);
                after == t && outcome == match r {
                    Ok(d) => Ok::<Seq<Act>, Fault>(seq![Act::Send(d)]),
                    Err(e) => Err::<Seq<Act>, Fault>(e),
                }
            };
        let g = frame_of(0, FrameKind::Close, none, fitted(p, s.padder.room(0)));
        assert(is_close(g));
        let (t, r) = c.built(0, FrameKind::Close, none, true, p, now);
        match packet_of(s, g) {
            Some(d) => {
                assert(r == Ok::<Seq<u8>, Fault>(d));
            },
            None => {
                assert(r is Err);
            },
        }
    }
}

/// A data packet that comes in its turn is delivered first, and after it, in their order, the
/// packets that waited for it.
pub proof fn waiting_packets_follow(
    s: Session,
    key: Seq<u8>,
    d: Seq<u8>,
    f: Frame,
    n: int,
    now: int,
    after: Session,
    outcome: Result<Seq<Act>, Fault>,
)
    requires
        s.state is Established || s.state is Closing,
        carries(d, s, key, s.recv.expected, f),
        s.recv_key == Some(key),
        s.recv.wf(),
        !s.recv.stalled(s.gap_timeout(), now),
        f.header.kind is Data,
        0 <= n <= s.recv.held.len(),
        s.recv.expected + n < u64::MAX,
        forall|k: int| 0 <= k < n ==> (#[trigger] s.recv.held[k]).nonce == s.recv.expected + 1 + k,
        n < s.recv.held.len() ==> s.recv.held[n].nonce > s.recv.expected + 1 + n,
        s.steps(Event::Inbound(d), now, after, outcome),
    ensures
        after.recv.expected == s.recv.expected + 1 + n,
        after.recv.held.len() == s.recv.held.len() - n,
        outcome matches Ok(acts) ==> {
            let m = acts.len() - n - 1;
            &&& m >= 0
            &&& acts[m] == Act::Deliver(f.header.stream_id, f.payload)
            &&& forall|k: int|
                0 <= k < n ==> (#[trigger] acts[m + 1 + k]) == match s.recv.held[k].item.data {
                    Some((stream, payload)) => Act::Deliver(stream, payload),
                    None => Act::Nothing,
                }
        },
{
    let nonce = s.recv.expected;
    let (p, q) = lemma_authentic(s, key, d, nonce, f, now, after, outcome);
    let b = Session { recv: s.recv.authenticated(nonce), ..s };
    let c = Session { ack_pending: true, ..b };
    assert(b.noticed(f, now) == (c, Ok::<Option<Seq<u8>>, Fault>(None)));
    let (recv, taken) = c.recv.taken(nonce, item_of(f), now);
    lemma_first_run((nonce + 1) as u64, s.recv.held, n);
    packets_leave_in_order((nonce + 1) as u64, s.recv.held);
    let between = lemma_ordered(c, nonce, item_of(f), None, p, q, now);
    assert((after, outcome) == c.ordered(nonce, item_of(f), None, p, q, now));
    if let (Ok(acts), Some(items)) = (outcome, taken) {
        let all = send_if(None) + between + delivered(items);
        let m = between.len() as int;
        assert(items.len() == n + 1);
        assert(all[m] == delivered(items)[0]);
        assert(all[m] == Act::Deliver(f.header.stream_id, f.payload));
        assert(normal(all) == all);
        assert forall|k: int| 0 <= k < n implies (#[trigger] acts[m + 1 + k]) == match s.recv.held[k].item.data {
            Some((stream, payload)) => Act::Deliver(stream, payload),
            None => Act::Nothing,
        } by {
            assert(items[1 + k] == s.recv.held[k].item);
            assert(acts[m + 1 + k] == delivered(items)[1 + k]);
        }
    }
}

proof fn lemma_first_run(expected: u64, held: Seq<Waiting>, n: int)
    requires
        0 <= n <= held.len(),
        expected + n <= u64::MAX,
        forall|k: int| 0 <= k < n ==> (#[trigger] held[k]).nonce == expected + k,
        n < held.len() ==> held[n].nonce > expected + n,
    ensures
        crate::protocol::receive::drained(expected, held).items.len() == n,
        !crate::protocol::receive::drained(expected, held).exhausted,
    decreases n,
{
    if n > 0 {
        let rest = held.drop_first();
        assert(held[0].nonce == expected);
        assert forall|k: int| 0 <= k < n - 1 implies (#[trigger] rest[k]).nonce == (expected + 1) as u64 + k by {
            assert(rest[k] == held[k + 1]);
        }
        lemma_first_run((expected + 1) as u64, rest, n - 1);
    }
}

/// A session gives a missing packet up when packets wait and nothing moved for eight timeouts,
/// but not before two seconds, and after ten in any case. It then goes on with the first packet
/// that waits.
pub proof fn missing_packets_are_given_up_in_time(s: Session, now: int)
    requires
        s.recv.last_advance <= now,
        s.cc.rto() >= 0,
        s.recv.held.len() > 0,
    ensures
        ({
            let still = now - s.recv.last_advance;
            let stalled = s.recv.stalled(s.gap_timeout(), now);
            &&& still < 2_000_000_000 ==> !stalled
            &&& still >= 10_000_000_000 ==> stalled
            &&& still >= 2_000_000_000 && still >= 8 * s.cc.rto() ==> stalled
            &&& still < 10_000_000_000 && still < 8 * s.cc.rto() ==> !stalled
        }),
        s.recv.stalled(s.gap_timeout(), now) ==> {
            let (r, released) = s.recv.recovered(s.gap_timeout(), now);
            &&& released.len() > 0 && released[0] == s.recv.held[0].item
            &&& r.last_advance == now
        },
        !s.recv.stalled(s.gap_timeout(), now) ==> s.recv.recovered(s.gap_timeout(), now) == (
            s.recv,
            Seq::<Item>::empty(),
        ),
{
    packets_leave_in_order(s.recv.held[0].nonce, s.recv.held);
}

} // verus!
