//! What holds of every session.

use vstd::prelude::*;

use crate::bytes::{be16, be32, be64, lemma_be16, lemma_be32, u16_at, u32_at, u64_at};
use crate::congestion::{larger, less, smaller};
use crate::crypto::aead::{aead_open, packet_nonce};
use crate::crypto::noise::{noise_greeting, MESSAGE_OVERHEAD};
use crate::crypto::obfuscation::{deobfuscated, deobfuscation_recovers_the_packet, obfuscated};
use crate::framing::frame::{frame_round_trips, Frame};
use crate::framing::FrameKind;
use crate::protocol::machine::carries;
use crate::protocol::sent::{
    alive, due, lemma_round_with_unreliable, only_exhausted_packets_leave, overdue, place_of,
    retries_are_charged_for_sent_packets_only, round, the_oldest_are_resent_first, total_retries, unacknowledged, Sent,
};
use crate::protocol::session::{
    delivered, handshake_packet, item_of, normal, send_if, sends, Act, Event, Fault, OstpState, Session, NACK_FLOOR_NANOS,
};

verus! {

broadcast use crate::bytes::group_big_endian;

/// Whether an act hands data to the application.
pub open spec fn delivers(a: Act) -> bool {
    a is Deliver
}

/// A data packet that one end built and the other receives in its turn is
/// delivered there, unless an acknowledgement that is due cannot be built or the
/// packet numbers run out; with nothing waiting and no acknowledgement due, it
/// is delivered and nothing else happens.
pub proof fn a_sent_packet_is_delivered(
    receiver: Session,
    key: Seq<u8>,
    d: Seq<u8>,
    nonce: u64,
    f: Frame,
    nack_pad: Seq<u8>,
    ack_pad: Seq<u8>,
    now: int,
)
    requires
        carries(d, receiver, key, nonce, f),
        f.header.kind is Data,
        receiver.recv_key == Some(key),
        receiver.recv.wf(),
        receiver.recv.expected == nonce,
        nonce < u64::MAX,
        !receiver.recv.stalled(receiver.gap_timeout(), now),
    ensures
        ({
            let raw = deobfuscated(d, receiver.obfuscation_key, false);
            let (after, outcome) = receiver.data_in(raw, nack_pad, ack_pad, now);
            &&& after.recv.expected > nonce
            &&& after.state == receiver.state
            &&& outcome matches Ok(acts) ==> acts.contains(Act::Deliver(f.header.stream_id, f.payload))
            &&& receiver.recv.held.len() == 0 && less(now, receiver.last_ack) < receiver.ack_delay ==> outcome == Ok::<
                Seq<Act>,
                Fault,
            >(seq![Act::Deliver(f.header.stream_id, f.payload)])
        }),
{
    let raw = deobfuscated(d, receiver.obfuscation_key, false);
    let a = Session { recv: receiver.recv, ack_pending: receiver.ack_pending || false, ..receiver };
    assert(a =~= receiver);
    assert(f.bytes() + Seq::<u8>::empty() =~= f.bytes());
    frame_round_trips(f, Seq::empty());
    let b = Session { recv: receiver.recv.authenticated(nonce), ..receiver };
    let c = Session { ack_pending: true, ..b };
    assert(b.noticed(f, now) == (c, Ok::<Option<Seq<u8>>, Fault>(None)));
    let item = item_of(f);
    let (recv, taken) = c.recv.taken(nonce, item, now);
    crate::protocol::receive::packets_leave_in_order((nonce + 1) as u64, c.recv.held);
    let (after, outcome) = receiver.data_in(raw, nack_pad, ack_pad, now);
    assert((after, outcome) == b.opened(nonce, f, nack_pad, ack_pad, now));
    assert((after, outcome) == c.ordered(nonce, item, None, nack_pad, ack_pad, now));
    let e = Session { recv, ..c };
    let wanted = Act::Deliver(f.header.stream_id, f.payload);
    lemma_ack_keeps_the_window(e, ack_pad, now);
    if let Some(items) = taken {
        assert(items[0] == item);
        assert(delivered(items)[0] == wanted);
        if let Ok(ack) = e.ack_if_due(ack_pad, now).1 {
            let all = send_if(None) + send_if(None) + send_if(ack) + delivered(items);
            let k = send_if(ack).len() as int;
            assert(all[k] == wanted);
            assert(normal(all) == all);
            assert(outcome == Ok::<Seq<Act>, Fault>(all));
            assert(all.contains(wanted));
        }
        if receiver.recv.held.len() == 0 && less(now, receiver.last_ack) < receiver.ack_delay {
            assert(items.len() == 1);
            let all = send_if(None) + send_if(None) + send_if(None) + delivered(items);
            assert(all =~= seq![wanted]);
        }
    }
}

proof fn lemma_built_keeps(s: Session, stream: u16, kind: FrameKind, payload: Seq<u8>, reliable: bool, pad: Seq<u8>, now: int)
    ensures
        ({
            let t = s.built(stream, kind, payload, reliable, pad, now).0;
            &&& t.recv == s.recv
            &&& t.send_nonce >= s.send_nonce
            &&& t.state == s.state
            &&& t.max_sent == s.max_sent
            &&& s.max_sent >= 0 && s.sent.len() <= s.max_sent ==> t.sent.len() <= t.max_sent
        }),
{
}

proof fn lemma_ack_keeps_the_window(s: Session, pad: Seq<u8>, now: int)
    ensures
        ({
            let t = s.ack_if_due(pad, now).0;
            &&& t.recv == s.recv
            &&& t.send_nonce >= s.send_nonce
            &&& t.state == s.state
            &&& t.max_sent == s.max_sent
            &&& s.max_sent >= 0 && s.sent.len() <= s.max_sent ==> t.sent.len() <= t.max_sent
        }),
{
}

/// The peer's Close ends a session that is established or is closing itself, also where
/// other packets are still missing.
pub proof fn the_peers_close_ends_the_session(
    receiver: Session,
    key: Seq<u8>,
    d: Seq<u8>,
    nonce: u64,
    f: Frame,
    now: int,
    after: Session,
    outcome: Result<Seq<Act>, Fault>,
)
    requires
        receiver.state is Established || receiver.state is Closing,
        carries(d, receiver, key, nonce, f),
        f.header.kind is Close,
        receiver.recv_key == Some(key),
        !receiver.recv.stalled(receiver.gap_timeout(), now),
        receiver.recv.expected <= nonce <= receiver.recv.furthest(),
        receiver.steps(Event::Inbound(d), now, after, outcome),
    ensures
        after.state is Closed,
{
    let raw = deobfuscated(d, receiver.obfuscation_key, false);
    let (p, q) = choose|p: Seq<u8>, q: Seq<u8>| (after, outcome) == #[trigger] receiver.data_in(raw, p, q, now);
    let a = Session { recv: receiver.recv, ack_pending: receiver.ack_pending || false, ..receiver };
    assert(a =~= receiver);
    assert(f.bytes() + Seq::<u8>::empty() =~= f.bytes());
    frame_round_trips(f, Seq::empty());
    let b = Session { recv: receiver.recv.authenticated(nonce), ..receiver };
    let c = b.noticed(f, now).0;
    let (recv, taken) = c.recv.taken(nonce, item_of(f), now);
    let e = Session { recv, ..c };
    let in_order = nonce == c.recv.expected;
    lemma_nack_keeps(e, in_order, p, now);
    lemma_ack_keeps_the_window(e.nack_if_due(in_order, p, now).0, q, now);
    assert((after, outcome) == b.opened(nonce, f, p, q, now));
}

/// While a session is closing, what its peer still sends is delivered, and the session
/// goes on closing.
pub proof fn closing_sessions_still_deliver(
    receiver: Session,
    key: Seq<u8>,
    d: Seq<u8>,
    nonce: u64,
    f: Frame,
    now: int,
    after: Session,
    outcome: Result<Seq<Act>, Fault>,
)
    requires
        receiver.state is Closing,
        carries(d, receiver, key, nonce, f),
        f.header.kind is Data,
        receiver.recv_key == Some(key),
        receiver.recv.wf(),
        receiver.recv.expected == nonce,
        nonce < u64::MAX,
        !receiver.recv.stalled(receiver.gap_timeout(), now),
        receiver.steps(Event::Inbound(d), now, after, outcome),
    ensures
        after.state is Closing,
        after.recv.expected > nonce,
        outcome matches Ok(acts) ==> acts.contains(Act::Deliver(f.header.stream_id, f.payload)),
{
    let raw = deobfuscated(d, receiver.obfuscation_key, false);
    let (p, q) = choose|p: Seq<u8>, q: Seq<u8>| (after, outcome) == #[trigger] receiver.data_in(raw, p, q, now);
    a_sent_packet_is_delivered(receiver, key, d, nonce, f, p, q, now);
}

/// A packet number below the expected one, such as that of a replay, delivers
/// nothing and moves nothing on the receiving side: it is answered with an
/// acknowledgement.
pub proof fn replays_are_not_delivered(s: Session, raw: Seq<u8>, nack_pad: Seq<u8>, ack_pad: Seq<u8>, now: int)
    requires
        raw.len() >= 12,
        u64_at(raw, 4) < s.recv.expected,
    ensures
        ({
            let (after, outcome) = s.frame_in(raw, nack_pad, ack_pad, now);
            &&& after.recv == s.recv
            &&& after.state == s.state
            &&& outcome matches Ok(acts) ==> forall|i: int| 0 <= i < acts.len() ==> !delivers(#[trigger] acts[i])
        }),
{
}

/// A packet that does not authenticate is refused and leaves the session as it was. Where
/// it finds the session stalled, that gives up what is missing, as any packet would have it
/// do, and nothing else changes.
pub proof fn forged_packets_change_nothing(
    s: Session,
    raw: Seq<u8>,
    nack_pad: Seq<u8>,
    ack_pad: Seq<u8>,
    now: int,
)
    requires
        raw.len() >= 12,
        s.recv.expected <= u64_at(raw, 4) <= s.recv.furthest(),
        s.recv_key matches Some(key) && aead_open(
            key,
            packet_nonce(u64_at(raw, 4)),
            be32(s.session_id as int),
            raw.subrange(12, raw.len() as int),
        ) is None,
    ensures
        s.frame_in(raw, nack_pad, ack_pad, now) == (s, Err::<Seq<Act>, Fault>(Fault::Crypto)),
        !s.recv.stalled(s.gap_timeout(), now) ==> s.data_in(raw, nack_pad, ack_pad, now) == (
            s,
            Err::<Seq<Act>, Fault>(Fault::Crypto),
        ),
        ({
            let (recv, released) = s.recv.recovered(s.gap_timeout(), now);
            s.recv.stalled(s.gap_timeout(), now) && recv.expected <= u64_at(raw, 4) <= recv.furthest() ==> s.data_in(
                raw,
                nack_pad,
                ack_pad,
                now,
            ) == (Session { recv, ack_pending: true, ..s }, Ok::<Seq<Act>, Fault>(normal(delivered(released))))
        }),
{
    let (recv, released) = s.recv.recovered(s.gap_timeout(), now);
    let a = Session { recv, ack_pending: s.ack_pending || released.len() > 0, ..s };
    if s.recv.stalled(s.gap_timeout(), now) {
        crate::protocol::receive::packets_leave_in_order(s.recv.held[0].nonce, s.recv.held);
    } else {
        assert(a =~= s);
    }
}

/// A stalled session that is sent a packet, whatever packet that is, gives up what is
/// missing and nothing else: of the packets that waited the first ones leave, the rest goes
/// on waiting, and what those that leave carry is delivered before all else.
pub proof fn only_what_is_missing_is_given_up(s: Session, raw: Seq<u8>, nack_pad: Seq<u8>, ack_pad: Seq<u8>, now: int)
    requires
        s.recv.stalled(s.gap_timeout(), now),
    ensures
        ({
            let (recv, released) = s.recv.recovered(s.gap_timeout(), now);
            let n = released.len() as int;
            &&& 1 <= n <= s.recv.held.len()
            &&& recv.held == s.recv.held.subrange(n, s.recv.held.len() as int)
            &&& forall|i: int| 0 <= i < n ==> #[trigger] released[i] == s.recv.held[i].item
            &&& s.data_in(raw, nack_pad, ack_pad, now).1 matches Ok(acts) && forall|i: int|
                0 <= i < n ==> ((#[trigger] s.recv.held[i]).item.data matches Some((stream, payload)) ==> i < acts.len()
                    && acts[i] == Act::Deliver(stream, payload))
        }),
{
    let (recv, released) = s.recv.recovered(s.gap_timeout(), now);
    let held = s.recv.held;
    crate::protocol::receive::packets_leave_in_order(held[0].nonce, held);
    let d = crate::protocol::receive::drained(held[0].nonce, held);
    assert(released == d.items);
    let acts = s.data_in(raw, nack_pad, ack_pad, now).1->Ok_0;
    assert forall|i: int| 0 <= i < released.len() implies ((#[trigger] held[i]).item.data matches Some((stream, payload))
        ==> i < acts.len() && acts[i] == Act::Deliver(stream, payload)) by {
        assert(released[i] == held[i].item);
        if held[i].item.data is Some {
            assert(delivered(released)[i] is Deliver);
        }
    }
}

/// The highest authenticated number moves only for a packet that authenticates
/// under a higher number. A replay cannot move it.
pub proof fn only_fresh_authentic_packets_raise_the_highest(
    s: Session,
    raw: Seq<u8>,
    nack_pad: Seq<u8>,
    ack_pad: Seq<u8>,
    now: int,
)
    ensures
        ({
            let after = s.data_in(raw, nack_pad, ack_pad, now).0;
            let n = u64_at(raw, 4) as u64;
            after.recv.highest != s.recv.highest ==> {
                &&& raw.len() >= 12
                &&& after.recv.highest == Some(n)
                &&& s.recv.highest matches Some(h) ==> h < n
                &&& s.recv_key matches Some(key) && aead_open(
                    key,
                    packet_nonce(n as int),
                    be32(s.session_id as int),
                    raw.subrange(12, raw.len() as int),
                ) is Some
            }
        }),
{
    let (recv, released) = s.recv.recovered(s.gap_timeout(), now);
    let a = Session { recv, ack_pending: s.ack_pending || released.len() > 0, ..s };
    assert(a.recv.highest == s.recv.highest);
    let n = u64_at(raw, 4) as u64;
    lemma_ack_built_keeps(a, ack_pad, now);
    lemma_nack_after_keeps(a, NACK_FLOOR_NANOS as int, nack_pad, now);
    if raw.len() >= 12 && a.recv.expected <= n && n <= a.recv.furthest() && a.recv_key is Some {
        if let Some(p) = aead_open(
            a.recv_key->0,
            packet_nonce(n as int),
            be32(a.session_id as int),
            raw.subrange(12, raw.len() as int),
        ) {
            let b = Session { recv: a.recv.authenticated(n), ..a };
            if let Some(f) = Frame::parse(p) {
                lemma_opened_keeps(b, n, f, nack_pad, ack_pad, now);
            }
        }
    }
}

/// An authentic packet that is newer than all before it, and not too far ahead, raises
/// the highest authenticated number, also where it comes out of turn.
pub proof fn fresh_packets_raise_the_highest(
    receiver: Session,
    key: Seq<u8>,
    d: Seq<u8>,
    nonce: u64,
    f: Frame,
    nack_pad: Seq<u8>,
    ack_pad: Seq<u8>,
    now: int,
)
    requires
        carries(d, receiver, key, nonce, f),
        receiver.recv_key == Some(key),
        !receiver.recv.stalled(receiver.gap_timeout(), now),
        receiver.recv.expected <= nonce <= receiver.recv.furthest(),
        receiver.recv.highest matches Some(h) ==> h < nonce,
    ensures
        receiver.data_in(deobfuscated(d, receiver.obfuscation_key, false), nack_pad, ack_pad, now).0.recv.highest == Some(
            nonce,
        ),
{
    let a = Session { recv: receiver.recv, ack_pending: receiver.ack_pending || false, ..receiver };
    assert(a =~= receiver);
    assert(f.bytes() + Seq::<u8>::empty() =~= f.bytes());
    frame_round_trips(f, Seq::empty());
    let b = Session { recv: receiver.recv.authenticated(nonce), ..receiver };
    lemma_opened_keeps(b, nonce, f, nack_pad, ack_pad, now);
}

proof fn lemma_ack_built_keeps(s: Session, pad: Seq<u8>, now: int)
    ensures
        ({
            let t = s.ack_built(pad, now).0;
            &&& t.recv == s.recv
            &&& t.send_nonce >= s.send_nonce
            &&& t.state == s.state
            &&& t.max_sent == s.max_sent
            &&& s.max_sent >= 0 && s.sent.len() <= s.max_sent ==> t.sent.len() <= t.max_sent
        }),
{
}

/// Between two requests for a missing packet there are at least 30 milliseconds, whichever
/// packets bring them about: one goes out only where the last is that long ago, and is then
/// the last. A packet beyond the window is answered with a request as soon as that is so.
pub proof fn requests_are_spaced(s: Session, raw: Seq<u8>, in_order: bool, pad: Seq<u8>, ack_pad: Seq<u8>, now: int)
    ensures
        ({
            let (after, request) = s.nack_if_due(in_order, pad, now);
            &&& request is Some ==> !in_order && less(now, s.last_nack) >= 30_000_000 && after.last_nack == now
            &&& after.last_nack == s.last_nack || after.last_nack == now
        }),
        raw.len() >= 12 && u64_at(raw, 4) >= s.recv.expected && u64_at(raw, 4) > s.recv.furthest() ==> {
            let (after, acts) = s.frame_in(raw, pad, ack_pad, now);
            if less(now, s.last_nack) < 30_000_000 {
                after == s && acts == Ok::<Seq<Act>, Fault>(Seq::empty())
            } else {
                let (t, built) = (Session { last_nack: now, ..s }).nack_built(pad, now);
                &&& after == t && after.last_nack == now
                &&& built matches Ok(d) ==> acts == Ok::<Seq<Act>, Fault>(seq![Act::Send(d)])
                &&& built is Err ==> acts == Ok::<Seq<Act>, Fault>(Seq::empty())
            }
        },
{
}

proof fn lemma_nack_after_keeps(s: Session, wait: int, pad: Seq<u8>, now: int)
    ensures
        ({
            let t = s.nack_after(wait, pad, now).0;
            &&& t.recv == s.recv
            &&& t.send_nonce >= s.send_nonce
            &&& t.state == s.state
            &&& t.max_sent == s.max_sent
            &&& s.max_sent >= 0 && s.sent.len() <= s.max_sent ==> t.sent.len() <= t.max_sent
        }),
{
    let a = Session { last_nack: now, ..s };
    lemma_built_keeps(a, 0, FrameKind::Nack, be64(a.recv.expected as int), false, pad, now);
}

proof fn lemma_nack_keeps(s: Session, in_order: bool, pad: Seq<u8>, now: int)
    ensures
        ({
            let t = s.nack_if_due(in_order, pad, now).0;
            &&& t.recv == s.recv
            &&& t.send_nonce >= s.send_nonce
            &&& t.state == s.state
            &&& t.max_sent == s.max_sent
            &&& s.max_sent >= 0 && s.sent.len() <= s.max_sent ==> t.sent.len() <= t.max_sent
        }),
{
    lemma_nack_after_keeps(s, s.nack_cooldown(), pad, now);
}

proof fn lemma_unacknowledged_len(h: Seq<Sent>, ranges: Seq<(u64, u64)>)
    ensures
        unacknowledged(h, ranges).len() <= h.len(),
    decreases h.len(),
{
    if h.len() > 0 {
        lemma_unacknowledged_len(h.drop_last(), ranges);
    }
}

proof fn lemma_place_in_range(h: Seq<Sent>, nonce: u64)
    ensures
        place_of(h, nonce) matches Some(i) ==> 0 <= i < h.len() && h[i].nonce == nonce,
    decreases h.len(),
{
    if h.len() > 0 {
        lemma_place_in_range(h.drop_last(), nonce);
    }
}

proof fn lemma_alive_len(h: Seq<Sent>, grace: int)
    ensures
        alive(h, grace).len() <= h.len(),
    decreases h.len(),
{
    if h.len() > 0 {
        lemma_alive_len(h.drop_last(), grace);
    }
}

proof fn lemma_round_len(h: Seq<Sent>, budget: int, base_ms: int, now: int)
    ensures
        round(h, budget, base_ms, now).history.len() == h.len(),
    decreases h.len(),
{
    if h.len() > 0 && budget > 0 {
        lemma_round_len(h.drop_first(), budget, base_ms, now);
        lemma_round_len(h.drop_first(), budget - 1, base_ms, now);
    }
}

proof fn lemma_noticed_keeps(s: Session, f: Frame, now: int)
    ensures
        ({
            let t = s.noticed(f, now).0;
            &&& t.recv == s.recv
            &&& t.send_nonce == s.send_nonce
            &&& t.state == s.state || t.state is Closed
            &&& t.max_sent == s.max_sent
            &&& s.sent.len() <= s.max_sent ==> t.sent.len() <= t.max_sent
        }),
{
    if let Some(ranges) = crate::protocol::ack::parse_ranges(f.payload) {
        lemma_unacknowledged_len(s.sent, ranges);
    }
    lemma_place_in_range(s.sent, u64_at(f.payload, 0) as u64);
}

proof fn lemma_opened_keeps(s: Session, n: u64, f: Frame, nack_pad: Seq<u8>, ack_pad: Seq<u8>, now: int)
    ensures
        ({
            let t = s.opened(n, f, nack_pad, ack_pad, now).0;
            &&& t.recv.highest == s.recv.highest
            &&& t.send_nonce >= s.send_nonce
            &&& t.state == s.state || t.state is Closed
            &&& t.max_sent == s.max_sent
            &&& s.max_sent >= 0 && s.sent.len() <= s.max_sent ==> t.sent.len() <= t.max_sent
        }),
{
    lemma_noticed_keeps(s, f, now);
    let a = s.noticed(f, now).0;
    let (recv, taken) = a.recv.taken(n, item_of(f), now);
    let b = Session { recv, ..a };
    let in_order = n == a.recv.expected;
    lemma_nack_keeps(b, in_order, nack_pad, now);
    lemma_ack_keeps_the_window(b.nack_if_due(in_order, nack_pad, now).0, ack_pad, now);
}

/// Whatever arrives: the packet numbers of this end never fall, the history
/// stays within its limit, and the session stays as it is or is closed.
pub proof fn receiving_keeps_the_session(s: Session, raw: Seq<u8>, nack_pad: Seq<u8>, ack_pad: Seq<u8>, now: int)
    requires
        0 <= s.sent.len() <= s.max_sent,
    ensures
        ({
            let t = s.data_in(raw, nack_pad, ack_pad, now).0;
            &&& t.send_nonce >= s.send_nonce
            &&& t.sent.len() <= t.max_sent
            &&& t.max_sent == s.max_sent
            &&& t.state == s.state || t.state is Closed
        }),
{
    let (recv, released) = s.recv.recovered(s.gap_timeout(), now);
    let a = Session { recv, ack_pending: s.ack_pending || released.len() > 0, ..s };
    let n = u64_at(raw, 4) as u64;
    lemma_ack_built_keeps(a, ack_pad, now);
    lemma_nack_after_keeps(a, NACK_FLOOR_NANOS as int, nack_pad, now);
    if raw.len() >= 12 && a.recv_key is Some {
        if let Some(p) = aead_open(
            a.recv_key->0,
            packet_nonce(n as int),
            be32(a.session_id as int),
            raw.subrange(12, raw.len() as int),
        ) {
            let b = Session { recv: a.recv.authenticated(n), ..a };
            if let Some(f) = Frame::parse(p) {
                lemma_opened_keeps(b, n, f, nack_pad, ack_pad, now);
            }
        }
    }
}

/// A tick keeps the history within its limit, and the receiving side as it is.
pub proof fn ticking_keeps_the_session(s: Session, pad: Seq<u8>, now: int)
    requires
        0 <= s.sent.len() <= s.max_sent,
    ensures
        ({
            let t = s.ticked(pad, now).0;
            &&& t.recv == s.recv
            &&& t.send_nonce >= s.send_nonce
            &&& t.sent.len() <= t.max_sent
            &&& t.state == s.state
        }),
{
    lemma_ack_keeps_the_window(s, pad, now);
    let t = s.ack_if_due(pad, now).0;
    let grace = crate::congestion::smaller(t.max_retries + 2, 255);
    lemma_alive_len(t.sent, grace);
    let base_ms = crate::congestion::larger(crate::congestion::larger(t.cc.rto(), t.rto) / 1_000_000, 1);
    lemma_round_len(alive(t.sent, grace), t.cc.budget(), base_ms, now);
}

/// The timeout of a session, in whole milliseconds, from which packets back off.
pub open spec fn resend_base_ms(s: Session) -> int {
    larger(larger(s.cc.rto(), s.rto) / 1_000_000, 1)
}

/// The packets that a tick keeps in flight: all but those that went out more than two times
/// beyond the permitted number.
pub open spec fn in_flight(s: Session) -> Seq<Sent> {
    alive(s.sent, smaller(s.max_retries + 2, 255))
}

/// What is in flight before a tick is, packet by packet, what is in flight after it: those
/// that go out again are noted as sent once more, and all others stay as they are.
pub open spec fn noted_again(s: Session, now: int, sent: Seq<Sent>) -> bool {
    let h = in_flight(s);
    let base_ms = resend_base_ms(s);
    &&& sent.len() == h.len()
    &&& forall|k: int|
        0 <= k < h.len() ==> #[trigger] sent[k] == if h[k].reliable && due(h[k], base_ms, now) && overdue(
            h.take(k),
            base_ms,
            now,
        ).len() < s.cc.budget() {
            h[k].again(now)
        } else {
            h[k]
        }
}

proof fn lemma_total_with_unreliable(h: Seq<Sent>, f: Sent)
    requires
        !f.reliable,
    ensures
        total_retries(h.push(f)) == total_retries(h),
    decreases h.len(),
{
    let w = h.push(f);
    if h.len() == 0 {
        assert(w.drop_first() =~= h);
    } else {
        assert(w.drop_first() =~= h.drop_first().push(f));
        lemma_total_with_unreliable(h.drop_first(), f);
    }
}

proof fn lemma_ack_in_history(s: Session, pad: Seq<u8>, now: int)
    requires
        s.sent.len() < s.max_sent,
    ensures
        ({
            let (t, r) = s.ack_if_due(pad, now);
            &&& t.cc == s.cc && t.rto == s.rto && t.max_retries == s.max_retries && t.max_sent == s.max_sent
            &&& r matches Ok(None) ==> t.sent == s.sent
            &&& r matches Ok(Some(d)) ==> t.sent.len() == s.sent.len() + 1 && t.sent == s.sent.push(t.sent.last())
                && !t.sent.last().reliable && t.sent.last().bytes == d
        }),
{
    let payload = crate::protocol::ack::ack_payload(s.recv.expected, crate::protocol::receive::nonces(s.recv.held));
    let t = s.built(0, FrameKind::Ack, payload, false, pad, now).0;
    if t.sent.len() > 0 {
        assert(t.sent.last() == t.sent[t.sent.len() - 1]);
    }
}

/// What a tick does as a whole, where the history has room for the acknowledgement that may
/// go out with it. It sends the oldest of the overdue packets again, in their order and no
/// more of them than its budget, behind an acknowledgement that is due. The retries of what
/// is in flight grow by the number of packets that went out again, unless a counter is at its
/// end. No packet leaves the history but reliable ones that went out more than two times
/// beyond the permitted number, and these do.
pub proof fn a_tick_resends_within_its_budget(s: Session, now: int, after: Session, acts: Seq<Act>)
    requires
        s.state is Established || s.state is Closing,
        s.sent.len() < s.max_sent,
        forall|k: int| 0 <= k < s.sent.len() ==> 0 <= (#[trigger] s.sent[k]).retries <= 255,
        s.steps(Event::Tick, now, after, Ok(acts)),
    ensures
        ({
            let h = in_flight(s);
            let waiting = overdue(h, resend_base_ms(s), now);
            let n = smaller(s.cc.budget(), waiting.len() as int);
            &&& exists|ack: Option<Seq<u8>>| acts == #[trigger] send_if(ack) + sends(waiting.take(n)) && match ack {
                None => noted_again(s, now, after.sent),
                Some(d) => {
                    &&& after.sent.len() > 0 && noted_again(s, now, after.sent.drop_last())
                    &&& after.sent.last().bytes == d && !after.sent.last().reliable
                },
            }
            &&& (forall|k: int| 0 <= k < s.sent.len() ==> (#[trigger] s.sent[k]).retries < 255) ==> total_retries(after.sent)
                == total_retries(h) + n
        }),
        forall|f: Sent|
            #[trigger] in_flight(s).contains(f) <==> s.sent.contains(f) && !(f.reliable && f.retries > s.max_retries + 2),
{
    let p = choose|p: Seq<u8>| (after, Ok::<Seq<Act>, Fault>(acts)) == #[trigger] s.ticked(p, now);
    let (t, r) = s.ack_if_due(p, now);
    lemma_ack_in_history(s, p, now);
    let h = in_flight(s);
    let grace = smaller(s.max_retries + 2, 255);
    let base_ms = resend_base_ms(s);
    let budget = s.cc.budget();
    let q = round(h, budget, base_ms, now);
    the_oldest_are_resent_first(h, budget, base_ms, now);
    assert forall|f: Sent| #[trigger] h.contains(f) <==> s.sent.contains(f) && !(f.reliable && f.retries > s.max_retries
        + 2) by {
        only_exhausted_packets_leave(s.sent, grace, f);
        if s.sent.contains(f) {
            let i = choose|i: int| 0 <= i < s.sent.len() && s.sent[i] == f;
            assert(s.sent[i].retries <= 255);
        }
    }
    if forall|k: int| 0 <= k < s.sent.len() ==> (#[trigger] s.sent[k]).retries < 255 {
        assert forall|k: int| 0 <= k < h.len() implies (#[trigger] h[k]).retries < 255 by {
            assert(h.contains(h[k]));
            let i = choose|i: int| 0 <= i < s.sent.len() && s.sent[i] == h[k];
            assert(s.sent[i].retries < 255);
        }
        retries_are_charged_for_sent_packets_only(h, budget, base_ms, now);
    }
    if let Ok(ack) = r {
        if let Some(d) = ack {
            let f = t.sent.last();
            assert(t.sent.drop_last() =~= s.sent);
            assert(alive(t.sent, grace) == h.push(f));
            lemma_round_with_unreliable(h, f, budget, base_ms, now);
            lemma_total_with_unreliable(q.history, f);
            assert(after.sent == q.history.push(f));
            assert(after.sent.drop_last() =~= q.history);
            assert(after.sent.last() == f);
        } else {
            assert(after.sent == q.history);
        }
        assert(acts == send_if(ack) + sends(q.out));
    }
}

/// Each packet that is built takes the next packet number, and no number is used
/// twice.
pub proof fn packet_numbers_are_used_once(
    s: Session,
    stream: u16,
    kind: FrameKind,
    payload: Seq<u8>,
    reliable: bool,
    pad: Seq<u8>,
    now: int,
)
    requires
        s.max_sent >= 1,
    ensures
        ({
            let (t, r) = s.built(stream, kind, payload, reliable, pad, now);
            r matches Ok(d) ==> {
                &&& t.send_nonce == s.send_nonce + 1
                &&& t.sent.len() > 0
                &&& t.sent.last().nonce == s.send_nonce
                &&& t.sent.last().bytes == d
                &&& t.sent.last().retries == 0
            }
        }),
{
}

/// A closed session stays closed and does nothing.
pub proof fn closed_sessions_stay_closed(
    s: Session,
    event: Event,
    now: int,
    after: Session,
    outcome: Result<Seq<Act>, Fault>,
)
    requires
        s.state is Closed,
        s.steps(event, now, after, outcome),
    ensures
        after == s,
        outcome == Ok::<Seq<Act>, Fault>(Seq::empty()),
{
}

/// A session without keys sends no data: only the handshake gives them.
pub proof fn data_needs_a_handshake(
    s: Session,
    event: Event,
    now: int,
    after: Session,
    outcome: Result<Seq<Act>, Fault>,
)
    requires
        s.state is Init || s.state is Handshaking,
        event is Outbound || event is Tick,
        s.steps(event, now, after, outcome),
    ensures
        after == s,
        outcome == Ok::<Seq<Act>, Fault>(Seq::empty()),
{
}

/// The other end finds the handshake message in a handshake datagram.
pub proof fn handshake_packets_round_trip(session_id: u32, key: Seq<u8>, noise: Seq<u8>, pad: Seq<u8>)
    requires
        noise.len() <= 0xffff,
    ensures
        ({
            let raw = deobfuscated(obfuscated(handshake_packet(session_id, noise, pad), key, true), key, true);
            &&& raw.len() >= 6 + noise.len()
            &&& u32_at(raw, 0) == session_id
            &&& u16_at(raw, 4) == noise.len()
            &&& raw.subrange(6, 6 + u16_at(raw, 4)) == noise
        }),
{
    let raw = handshake_packet(session_id, noise, pad);
    deobfuscation_recovers_the_packet(raw, key, true);
    assert(raw.subrange(0, 4) =~= be32(session_id as int));
    assert(raw.subrange(4, 6) =~= be16(noise.len() as int));
    lemma_be32(raw, 0, session_id as int);
    lemma_be16(raw, 4, noise.len() as int);
    assert(raw.subrange(6, 6int + noise.len()) =~= noise);
}

/// What an initiator sends first brings a responder that waits for that session, with the
/// same secrets, into the session: it gets the greeting of the initiator, and answers.
pub proof fn a_greeting_is_heard(
    initiator: Session,
    responder: Session,
    d: Seq<u8>,
    now: int,
    after: Session,
    outcome: Result<Seq<Act>, Fault>,
)
    requires
        initiator.greets(d),
        initiator.can_greet(),
        responder.role is Responder,
        responder.hand is Fresh,
        responder.state is Init || responder.state is Handshaking,
        responder.can_greet(),
        responder.session_id == initiator.session_id,
        responder.psk == initiator.psk,
        responder.obfuscation_key == initiator.obfuscation_key,
        responder.steps(Event::Inbound(d), now, after, outcome),
    ensures
        after.state is Established,
        outcome matches Ok(acts) && acts.len() == 1 && (acts[0] matches Act::Greeted(p, answer) && p
            == initiator.greeting && (answer matches Some(a) && responder.answers(a))),
{
    let noise = choose|noise: Seq<u8>| #[trigger]
        initiator.wraps(d, noise) && noise.len() == initiator.greeting.len() + MESSAGE_OVERHEAD && noise_greeting(
            initiator.psk,
            noise,
        ) == Some(initiator.greeting);
    let pad = choose|pad: Seq<u8>|
        #![trigger handshake_packet(initiator.session_id, noise, pad)]
        initiator.pad_min <= pad.len() <= initiator.pad_max && d == obfuscated(
            handshake_packet(initiator.session_id, noise, pad),
            initiator.obfuscation_key,
            true,
        );
    handshake_packets_round_trip(initiator.session_id, initiator.obfuscation_key, noise, pad);
    let ready = Session { state: OstpState::Handshaking, ..responder };
    if let Ok(acts) = outcome {
        if let Act::Greeted(_, Some(a)) = acts[0] {
            assert(ready.answers(a) ==> responder.answers(a)) by {
                if ready.answers(a) {
                    let m = choose|m: Seq<u8>| #[trigger]
                        ready.wraps(a, m) && m.len() == ready.greeting.len() + MESSAGE_OVERHEAD;
                    assert(responder.wraps(a, m));
                }
            }
        }
    }
}

/// A handshake that is done leaves an established session with a key for each direction, which
/// has used no number; a datagram that is not whole changes nothing.
pub proof fn handshakes_establish_the_session(s: Session, raw: Seq<u8>, after: Session, outcome: Result<Seq<Act>, Fault>)
    requires
        s.shakes(raw, after, outcome),
    ensures
        raw.len() < 6 || raw.len() < 6 + u16_at(raw, 4) ==> after == s && outcome == Err::<Seq<Act>, Fault>(Fault::Framing),
        outcome matches Ok(acts) ==> {
            &&& after.state is Established
            &&& after.send_key is Some && after.recv_key is Some
            &&& acts.len() == 1 && acts[0] is Greeted
            &&& after.session_id == s.session_id && after.send_nonce == s.send_nonce && after.recv == s.recv && after.sent
                == s.sent
        },
        outcome is Err ==> after.state == s.state && after.send_key == s.send_key && after.recv_key == s.recv_key,
{
}

/// The end that begins a session sends one datagram, and the other waits for it.
pub proof fn sessions_begin_with_a_greeting(s: Session, after: Session, outcome: Result<Seq<Act>, Fault>)
    requires
        s.starts(after, outcome),
    ensures
        after.state is Handshaking,
        s.role is Responder ==> outcome == Ok::<Seq<Act>, Fault>(Seq::empty()) && after.hand == s.hand,
        s.role is Initiator && s.hand is Fresh && s.can_greet() ==> (outcome matches Ok(acts) && acts.len() == 1
            && acts[0] is Send) && after.hand is Asked,
        s.role is Initiator && !(s.hand is Fresh && s.can_greet()) ==> outcome == Err::<Seq<Act>, Fault>(Fault::Crypto),
        after.send_nonce == s.send_nonce && after.sent == s.sent && after.recv == s.recv,
{
}

/// Between two requests for a missing packet lies half a timeout, and thirty milliseconds at
/// least.
pub proof fn requests_wait_for_half_a_timeout(s: Session)
    ensures
        s.nack_cooldown() >= 30_000_000,
        s.cc.rto() >= 60_000_000 ==> s.nack_cooldown() == s.cc.rto() / 2,
{
}

} // verus!
