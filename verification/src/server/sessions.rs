//! What clients can rely on: their sessions stay while they are used, their traffic is counted,
//! and what they send and get reaches its place.

use vstd::prelude::*;

use crate::bytes::{be32, be64, u32_at, u64_at};
use crate::crypto::noise::noise_greeting;
use crate::crypto::obfuscation::{deobfuscated, junk_marker_of, obfuscation_key_of, psk_of};
use crate::net::SocketAddr;
use crate::protocol::reliability::{data_goes_out_and_is_remembered, is_data, packet_of};
use crate::protocol::session::{Act, Event, Fault, Session};
use crate::server::bucket::Tokens;
use crate::server::dispatcher::{
    addressed, delivered_in, fits, frames_of, fresh_handshakes, header_id, heard, headroom, is_junk, makes_room,
    proper_greeting, recent, sent_in, stale, ticked_all, ticks, trial_id, within_limit, Arrival, Attempt, Dispatch, Peer,
    Verdict,
};
use crate::server::users::{Book, UserMeta, UserStats};
use crate::text::text_of;
use vstd::utf8::encode_utf8;

verus! {

// ── Acts ─────────────────────────────────────────────────────────────────────

/// Each datagram that a session asks to send is sent, and nothing else is.
pub proof fn all_datagrams_are_sent(acts: Seq<Act>, d: Seq<u8>)
    ensures
        sent_in(acts).contains(d) <==> acts.contains(Act::Send(d)),
    decreases acts.len(),
{
    if acts.len() > 0 {
        let r = acts.drop_last();
        all_datagrams_are_sent(r, d);
        let n = acts.len() - 1;
        if acts.contains(Act::Send(d)) {
            let i = choose|i: int| 0 <= i < acts.len() && acts[i] == Act::Send(d);
            if i < n {
                assert(r[i] == acts[i]);
                let j = choose|j: int| 0 <= j < sent_in(r).len() && sent_in(r)[j] == d;
                assert(sent_in(acts)[j] == d);
            } else {
                assert(sent_in(acts)[sent_in(acts).len() - 1] == d);
            }
        }
        if sent_in(acts).contains(d) {
            let j = choose|j: int| 0 <= j < sent_in(acts).len() && sent_in(acts)[j] == d;
            if j < sent_in(r).len() {
                assert(sent_in(r)[j] == d);
                let i = choose|i: int| 0 <= i < r.len() && r[i] == Act::Send(d);
                assert(acts[i] == Act::Send(d));
            } else {
                assert(acts[n] == Act::Send(d));
            }
        }
    }
}

/// All data that a session delivers is handed on under its stream, and nothing else is.
pub proof fn all_data_is_handed_on(acts: Seq<Act>, id: u32, stream: u16, payload: Seq<u8>)
    ensures
        delivered_in(acts, id).contains((id, stream, payload)) <==> acts.contains(Act::Deliver(stream, payload)),
        forall|i: int| 0 <= i < delivered_in(acts, id).len() ==> (#[trigger] delivered_in(acts, id)[i]).0 == id,
    decreases acts.len(),
{
    if acts.len() > 0 {
        let r = acts.drop_last();
        all_data_is_handed_on(r, id, stream, payload);
        let n = acts.len() - 1;
        let x = (id, stream, payload);
        let a = Act::Deliver(stream, payload);
        let all = delivered_in(acts, id);
        let before = delivered_in(r, id);
        if acts.contains(a) {
            let i = choose|i: int| 0 <= i < acts.len() && acts[i] == a;
            if i < n {
                assert(r[i] == acts[i]);
                let j = choose|j: int| 0 <= j < before.len() && before[j] == x;
                assert(all[j] == x);
            } else {
                assert(all[all.len() - 1] == x);
            }
        }
        if all.contains(x) {
            let j = choose|j: int| 0 <= j < all.len() && all[j] == x;
            if j < before.len() {
                assert(before[j] == x);
                let i = choose|i: int| 0 <= i < r.len() && r[i] == a;
                assert(acts[i] == a);
            } else {
                assert(acts[n] == a);
            }
        }
    }
}

/// Datagrams and data keep the order that a session gives them.
pub proof fn acts_keep_their_order(a: Seq<Act>, b: Seq<Act>, id: u32)
    ensures
        sent_in(a + b) == sent_in(a) + sent_in(b),
        delivered_in(a + b, id) == delivered_in(a, id) + delivered_in(b, id),
    decreases b.len(),
{
    if b.len() == 0 {
        assert(a + b =~= a);
        assert(sent_in(a) + sent_in(b) =~= sent_in(a));
        assert(delivered_in(a, id) + delivered_in(b, id) =~= delivered_in(a, id));
    } else {
        acts_keep_their_order(a, b.drop_last(), id);
        assert((a + b).drop_last() =~= a + b.drop_last());
        assert((a + b).last() == b.last());
        assert(sent_in(a + b) =~= sent_in(a) + sent_in(b));
        assert(delivered_in(a + b, id) =~= delivered_in(a, id) + delivered_in(b, id));
    }
}

// ── Datagrams of sessions ────────────────────────────────────────────────────

/// A datagram from the address of a session that carries the session's id is one of that
/// session: the client is heard from at this moment, its bytes are counted, and what it sends
/// is handed on and answered.
pub proof fn clients_are_served(
    d: Dispatch,
    base: crate::protocol::ProtocolConfig,
    book: Book,
    packet: Seq<u8>,
    at: Arrival,
    after: Dispatch,
    book_after: Book,
    verdict: Verdict,
    id: u32,
)
    requires
        d.handles(base, book, packet, at, after, book_after, verdict),
        d.by_addr.contains_key(at.peer),
        d.by_addr[at.peer] == id,
        d.peers.contains_key(id),
        d.peers[id].addr == at.peer,
        packet.len() >= 12,
        header_id(packet, d.peers[id].obfuscation_key) == id,
        within_limit(book, d.peers[id].key),
        book.stats.contains_key(d.peers[id].key),
        book.stats[d.peers[id].key].bytes_up + packet.len() <= u64::MAX,
    ensures
        ({
            let key = d.peers[id].key;
            let s = d.peers[id].session;
            &&& book_after.stats.contains_key(key) && book_after.stats[key].bytes_up == book.stats[key].bytes_up
                + packet.len()
            &&& book_after.stats[key].bytes_down == book.stats[key].bytes_down
            &&& book_after.keys == book.keys
            &&& forall|k: Seq<char>| k != key ==> (#[trigger] book_after.stats.contains_key(k)
                <==> book.stats.contains_key(k)) && book_after.stats[k] == book.stats[k]
            &&& after.peers.contains_key(id) && after.peers[id].key == key && after.peers[id].addr == at.peer
            &&& after.peers.dom() == d.peers.dom()
            &&& exists|o: Result<Seq<Act>, Fault>| #[trigger]
                s.steps(Event::Inbound(packet), at.now.nanos as int, after.peers[id].session, o) && match o {
                    Ok(acts) => after.peers[id].last_seen == at.now.nanos && (verdict matches Verdict::Accepted {
                        responses,
                        payloads,
                        addr,
                    } && addr == at.peer && responses == sent_in(acts) && payloads == delivered_in(acts, id)),
                    Err(_) => verdict is Unauthorized && after.peers[id].last_seen == d.peers[id].last_seen,
                }
        }),
{
    assert(d.known_session(at.peer, packet) == Some(id));
    let (mid, found) = choose|mid: Dispatch, found: Option<u32>| #[trigger]
        d.locates(at.peer, packet, at.now.nanos as int, mid, found) && match found {
            Some(id) => mid.serves(book, id, packet, at, after, book_after, verdict),
            None => mid.knocks(base, book, packet, at, after, book_after, verdict),
        };
    assert(mid == d && found == Some(id));
    assert(book.admits(d.peers[id].key, at.unix));
    assert(after.peers.dom() =~= d.peers.dom());
}

/// A client whose key is gone, or that has used what there is, is refused, and its session
/// ends: neither the id nor the address leads to it any more.
pub proof fn exhausted_clients_are_refused(
    d: Dispatch,
    base: crate::protocol::ProtocolConfig,
    book: Book,
    packet: Seq<u8>,
    at: Arrival,
    after: Dispatch,
    book_after: Book,
    verdict: Verdict,
    id: u32,
)
    requires
        d.handles(base, book, packet, at, after, book_after, verdict),
        d.by_addr.contains_key(at.peer),
        d.by_addr[at.peer] == id,
        d.peers.contains_key(id),
        d.peers[id].addr == at.peer,
        packet.len() >= 12,
        header_id(packet, d.peers[id].obfuscation_key) == id,
        !within_limit(book, d.peers[id].key),
    ensures
        verdict is Unauthorized,
        !after.peers.contains_key(id),
        !after.by_addr.contains_key(at.peer),
        forall|other: u32| other != id ==> (#[trigger] after.peers.contains_key(other) <==> d.peers.contains_key(other)),
        book_after.keys == book.keys,
{
    assert(d.known_session(at.peer, packet) == Some(id));
    let (mid, found) = choose|mid: Dispatch, found: Option<u32>| #[trigger]
        d.locates(at.peer, packet, at.now.nanos as int, mid, found) && match found {
            Some(id) => mid.serves(book, id, packet, at, after, book_after, verdict),
            None => mid.knocks(base, book, packet, at, after, book_after, verdict),
        };
    assert(mid == d && found == Some(id));
    assert(!book.admits(d.peers[id].key, at.unix));
}

/// A datagram that is too short for any header is refused and changes nothing.
pub proof fn short_datagrams_are_refused(
    d: Dispatch,
    base: crate::protocol::ProtocolConfig,
    book: Book,
    packet: Seq<u8>,
    at: Arrival,
    after: Dispatch,
    book_after: Book,
    verdict: Verdict,
)
    requires
        d.handles(base, book, packet, at, after, book_after, verdict),
        packet.len() < 4,
    ensures
        after == d,
        book_after == book,
        verdict is Unauthorized,
{
}

/// What the server sends to an established session goes to the address of its client in one
/// packet, and its bytes are counted.
pub proof fn data_reaches_the_clients_address(
    d: Dispatch,
    book: Book,
    id: u32,
    stream: u16,
    payload: Seq<u8>,
    now: int,
    unix: u64,
    after: Dispatch,
    book_after: Book,
    r: Result<Option<(Seq<u8>, SocketAddr)>, Fault>,
)
    requires
        d.sends_out(book, id, stream, payload, now, unix, after, book_after, r),
        d.peers.contains_key(id),
        d.peers[id].session.state is Established,
        d.peers[id].session.max_sent >= 1,
        d.peers[id].session.send_nonce < u64::MAX,
        book.stats.contains_key(d.peers[id].key),
    ensures
        exists|g: crate::framing::frame::Frame| #[trigger]
            is_data(g, stream, payload) && match packet_of(d.peers[id].session, g) {
                Some(b) => {
                    let key = d.peers[id].key;
                    &&& r == Ok::<Option<(Seq<u8>, SocketAddr)>, Fault>(Some((b, d.peers[id].addr)))
                    &&& b.len() <= u64::MAX && book.stats[key].bytes_down + b.len() <= u64::MAX
                        ==> book_after.stats.contains_key(key) && book_after.stats[key].bytes_down
                        == book.stats[key].bytes_down + b.len()
                    &&& book_after.stats[key].bytes_up == book.stats[key].bytes_up
                },
                None => r is Err && book_after == book,
            },
        forall|other: u32| other != id && #[trigger] d.peers.contains_key(other) ==> after.peers.contains_key(other)
            && after.peers[other] == d.peers[other],
        after.peers[id].last_seen == d.peers[id].last_seen,
{
    let p = d.peers[id];
    let q = after.peers[id];
    let o = choose|o: Result<Seq<Act>, Fault>| #[trigger]
        p.session.steps(Event::Outbound(stream, payload), now, q.session, o) && match r {
            Ok(Some((b, addr))) => o == Ok::<Seq<Act>, Fault>(seq![Act::Send(b)]) && addr == p.addr && book_after
                == book.down(p.key, b.len() as u64, unix),
            Ok(None) => o == Ok::<Seq<Act>, Fault>(Seq::empty()) && book_after == book,
            Err(e) => o == Err::<Seq<Act>, Fault>(e) && book_after == book,
        };
    data_goes_out_and_is_remembered(p.session, stream, payload, now, q.session, o);
    let g = choose|g: crate::framing::frame::Frame| #[trigger]
        is_data(g, stream, payload) && (match packet_of(p.session, g) {
            Some(b) => o == Ok::<Seq<Act>, Fault>(seq![Act::Send(b)]),
            None => o is Err,
        });
    if let Some(b) = packet_of(p.session, g) {
        assert(seq![Act::Send(b)].len() == 1);
        if let Ok(Some((x, addr))) = r {
            assert(seq![Act::Send(x)][0] == seq![Act::Send(b)][0]);
        }
        if let Ok(None) = r {
            assert(Seq::<Act>::empty().len() == 0);
        }
    }
}

/// To a session that there is not, nothing is sent.
pub proof fn unknown_sessions_get_nothing(
    d: Dispatch,
    book: Book,
    id: u32,
    stream: u16,
    payload: Seq<u8>,
    now: int,
    unix: u64,
    after: Dispatch,
    book_after: Book,
    r: Result<Option<(Seq<u8>, SocketAddr)>, Fault>,
)
    requires
        d.sends_out(book, id, stream, payload, now, unix, after, book_after, r),
        !d.peers.contains_key(id),
    ensures
        r == Ok::<Option<(Seq<u8>, SocketAddr)>, Fault>(None),
        after == d,
        book_after == book,
{
}

/// A session that is dropped is gone with its address, and the others stay.
pub proof fn dropped_sessions_are_gone(d: Dispatch, id: u32)
    requires
        d.peers.contains_key(id),
    ensures
        !d.dropped(id).peers.contains_key(id),
        !d.dropped(id).by_addr.contains_key(d.peers[id].addr),
        forall|other: u32| other != id ==> (#[trigger] d.dropped(id).peers.contains_key(other)
            <==> d.peers.contains_key(other)) && (d.peers.contains_key(other) ==> d.dropped(id).peers[other]
            == d.peers[other]),
        forall|a: SocketAddr| a != d.peers[id].addr ==> (#[trigger] d.dropped(id).by_addr.contains_key(a)
            <==> d.by_addr.contains_key(a)),
        d.dropped(id).replay == d.replay,
{
}

// ── Handshakes ───────────────────────────────────────────────────────────────

/// The greeting of a client: eight bytes of its time, four of the session's id, and its key.
pub open spec fn greeting(ts: u64, id: u32, key: Seq<u8>) -> Seq<u8> {
    be64(ts as int) + be32(id as int) + key
}

/// A greeting is accepted where it names the session and the key, and the clocks of the two
/// ends are no more than five minutes apart; any other one is not.
pub proof fn greetings_are_checked(ts: u64, id: u32, wanted: u32, key: Seq<u8>, name: Seq<char>, now: u64)
    requires
        ts < 0x8000_0000_0000_0000,
    ensures
        proper_greeting(greeting(ts, id, key), wanted, name, now) <==> id == wanted && text_of(key) == Some(name) && now
            <= ts + 300 && ts <= now + 300,
{
    broadcast use crate::bytes::group_big_endian;

    let p = greeting(ts, id, key);
    assert(p.len() == 12 + key.len());
    assert(p.subrange(0, 8) =~= be64(ts as int));
    assert(p.subrange(8, 12) =~= be32(id as int));
    assert(p.subrange(12, p.len() as int) =~= key);
    crate::bytes::lemma_be64(p, 0, ts as int);
    crate::bytes::lemma_be32(p, 8, id as int);
}

/// Greetings that are too short are not accepted.
pub proof fn short_greetings_are_refused(payload: Seq<u8>, id: u32, key: Seq<char>, now: u64)
    requires
        payload.len() < 12,
    ensures
        !proper_greeting(payload, id, key, now),
{
}

/// A handshake is remembered while its time is within five minutes of the server's: a tick
/// forgets just the others.
pub proof fn recent_handshakes_are_remembered(m: Map<Seq<u8>, u64>, now: u64, p: Seq<u8>)
    requires
        m.contains_key(p),
        m[p] < 0x8000_0000_0000_0000,
    ensures
        fresh_handshakes(m, now).contains_key(p) <==> now <= m[p] + 300 && m[p] <= now + 300,
        fresh_handshakes(m, now).contains_key(p) ==> fresh_handshakes(m, now)[p] == m[p],
{
}

/// While fewer than fifty thousand handshakes are remembered, room for another one costs none
/// of them; after that the oldest of the recent ones goes at most.
pub proof fn room_costs_the_oldest_only(before: Map<Seq<u8>, u64>, now: u64, after: Map<Seq<u8>, u64>, p: Seq<u8>)
    requires
        makes_room(before, now, after),
        before.contains_key(p),
        before[p] < 0x8000_0000_0000_0000,
        now <= before[p] + 300 && before[p] <= now + 300,
    ensures
        before.dom().len() < 50_000 ==> after == before,
        after.contains_key(p) || (before.dom().len() >= 50_000 && forall|q: Seq<u8>| #[trigger]
            after.contains_key(q) ==> before[p] <= after[q]),
        after.contains_key(p) ==> after[p] == before[p],
{
    if before.dom().len() >= 50_000 {
        let fresh = fresh_handshakes(before, now);
        assert(fresh.contains_key(p));
        if fresh.dom().len() >= 50_000 {
            let oldest = choose|oldest: Seq<u8>| #[trigger]
                fresh.contains_key(oldest) && (forall|p: Seq<u8>| #[trigger]
                    fresh.contains_key(p) ==> fresh[oldest] <= fresh[p]) && after == fresh.remove(oldest);
            if !after.contains_key(p) {
                assert(p == oldest);
                assert forall|q: Seq<u8>| #[trigger] after.contains_key(q) implies before[p] <= after[q] by {
                    assert(fresh.contains_key(q));
                }
            }
        }
    }
}

/// A client that is let in is remembered by its greeting, so that this is not accepted again,
/// and its session has the id and the key that it asked with, at its address.
pub proof fn accepted_clients_are_noted(
    d: Dispatch,
    book: Book,
    key: Seq<char>,
    packet: Seq<u8>,
    session: Session,
    payload: Seq<u8>,
    answer: Option<Seq<u8>>,
    at: Arrival,
    after: Dispatch,
    book_after: Book,
    verdict: Verdict,
)
    requires
        d.admits_client(book, key, packet, session, payload, answer, at, after, book_after, verdict),
        verdict is Accepted,
    ensures
        after.replay.contains_key(payload),
        d.peers.dom().len() < 1024,
        ({
            let id = trial_id(packet, key);
            &&& after.peers.contains_key(id) && after.peers[id].key == key && after.peers[id].addr == at.peer
            &&& after.peers[id].last_seen == at.now.nanos
            &&& after.by_addr.contains_key(at.peer) && after.by_addr[at.peer] == id
            &&& forall|other: u32| other != id && #[trigger] d.peers.contains_key(other) ==> after.peers.contains_key(other)
                && after.peers[other] == d.peers[other]
        }),
        verdict matches Verdict::Accepted { responses, payloads, addr } && addr == at.peer && payloads.len() == 0 && (
        answer matches Some(a) ==> responses == seq![a]),
        book_after.stats.contains_key(key),
        book.stats.contains_key(key) && book.stats[key].connections < u64::MAX ==> book_after.stats[key].connections
            == book.stats[key].connections + 1,
        book_after.keys == book.keys,
{
}

/// Junk is known by the mark of the key in this window of time or in the one before.
pub proof fn junk_is_known_by_its_mark(packet: Seq<u8>, key: Seq<char>, window: u64)
    requires
        packet.len() >= 4,
        window > 0,
    ensures
        is_junk(packet, key, window) <==> packet.take(4) == junk_marker_of(encode_utf8(key), window as int) || packet.take(
            4,
        ) == junk_marker_of(encode_utf8(key), window - 1),
{
    assert(packet.take(4) =~= packet.subrange(0, 4));
}

/// A datagram that a registered key's mark shows to be junk is dropped in silence, where no
/// earlier key lets a client in by it.
pub proof fn junk_is_dropped(
    d: Dispatch,
    base: crate::protocol::ProtocolConfig,
    book: Book,
    order: Seq<Seq<char>>,
    attempts: Seq<Attempt>,
    packet: Seq<u8>,
    at: Arrival,
    after: Dispatch,
    book_after: Book,
    verdict: Verdict,
)
    requires
        d.tries(base, book, order, attempts, packet, at, after, book_after, verdict),
        order.len() > 0,
        is_junk(packet, order[0], at.window),
    ensures
        verdict is Junk,
        after == d,
        book_after == book,
{
}

// ── Ticks ────────────────────────────────────────────────────────────────────

proof fn lemma_frames(order: Seq<u32>, acts: Seq<Seq<Act>>, peers: Map<u32, Peer>, i: int, b: Seq<u8>)
    requires
        0 <= i < order.len(),
        acts.len() == order.len(),
        acts[i].contains(Act::Send(b)),
    ensures
        frames_of(order, acts, peers).contains((b, peers[order[i]].addr)),
    decreases order.len(),
{
    let n = order.len() - 1;
    let before = frames_of(order.drop_last(), acts.drop_last(), peers);
    let own = addressed(sent_in(acts.last()).reverse(), peers[order.last()].addr);
    let all = frames_of(order, acts, peers);
    if i < n {
        assert(order.drop_last()[i] == order[i]);
        assert(acts.drop_last()[i] == acts[i]);
        lemma_frames(order.drop_last(), acts.drop_last(), peers, i, b);
        let j = choose|j: int| 0 <= j < before.len() && before[j] == (b, peers[order[i]].addr);
        assert(all[j] == before[j]);
    } else {
        all_datagrams_are_sent(acts[i], b);
        let s = sent_in(acts[i]);
        let j = choose|j: int| 0 <= j < s.len() && s[j] == b;
        assert(s.reverse()[s.len() - 1 - j] == b);
        assert(own[s.len() - 1 - j] == (b, peers[order[i]].addr));
        assert(all[before.len() + (s.len() - 1 - j)] == (b, peers[order[i]].addr));
    }
}

/// A tick ticks every session, and each datagram that a session asks to send goes to its
/// client's address. Sessions keep their clients.
pub proof fn ticks_reach_every_client(
    before: Map<u32, Peer>,
    now: int,
    after: Map<u32, Peer>,
    frames: Seq<(Seq<u8>, SocketAddr)>,
    id: u32,
)
    requires
        ticked_all(before, now, after, frames),
        before.contains_key(id),
    ensures
        after.contains_key(id),
        after[id].addr == before[id].addr,
        after[id].key == before[id].key,
        after[id].last_seen == before[id].last_seen,
        exists|o: Result<Seq<Act>, Fault>| #[trigger]
            before[id].session.steps(Event::Tick, now, after[id].session, o) && (o matches Ok(acts) ==> forall|b: Seq<u8>|
                #[trigger] acts.contains(Act::Send(b)) ==> frames.contains((b, before[id].addr))),
{
    let (order, acts) = choose|order: Seq<u32>, acts: Seq<Seq<Act>>|
        after.dom() == before.dom() && order.to_set() == before.dom() && order.no_duplicates() && acts.len()
            == order.len() && (forall|i: int|
            0 <= i < order.len() ==> after[#[trigger] order[i]] == (Peer {
                session: after[order[i]].session,
                ..before[order[i]]
            }) && ticks(before[order[i]].session, now, after[order[i]].session, acts[i])) && frames
            == #[trigger] frames_of(order, acts, before);
    assert(order.to_set().contains(id));
    let i = choose|i: int| 0 <= i < order.len() && order[i] == id;
    assert(after.dom().contains(id));
    assert(ticks(before[order[i]].session, now, after[order[i]].session, acts[i]));
    let o = choose|o: Result<Seq<Act>, Fault>| #[trigger]
        before[id].session.steps(Event::Tick, now, after[id].session, o) && acts[i] == match o {
            Ok(a) => a,
            Err(_) => Seq::empty(),
        };
    if let Ok(a) = o {
        assert forall|b: Seq<u8>| #[trigger] a.contains(Act::Send(b)) implies frames.contains((b, before[id].addr)) by {
            lemma_frames(order, acts, before, i, b);
        }
    }
}

/// How many packets a session can still take is its window in packets, held between 16 and
/// 16384, without the reliable packets in flight.
pub proof fn headroom_is_the_window_without_what_is_in_flight(s: Session)
    requires
        s.cc.mtu > 0,
        s.cc.cwnd >= 0,
    ensures
        ({
            let w = s.cc.cwnd / s.cc.mtu;
            headroom(s) + crate::protocol::sent::reliable_count(s.sent) == if w < 16 {
                16
            } else if w > 16384 {
                16384
            } else {
                w
            }
        }),
{
}

/// A client that sends an authentic packet newer than all before it from another address is
/// followed there; without one it stays where it was, and only what comes from its address
/// counts as a sign of it.
pub proof fn clients_are_followed_to_new_addresses(
    d: Dispatch,
    id: u32,
    session: crate::protocol::session::Session,
    addr: SocketAddr,
    now: int,
    other: u32,
)
    requires
        d.peers.contains_key(id),
        other != id,
    ensures
        ({
            let after = d.moved(id, session, addr, now);
            let newer = session.recv.highest is Some && session.recv.highest != d.peers[id].session.recv.highest;
            &&& after.peers[id].session == session && after.peers[id].key == d.peers[id].key
            &&& newer ==> after.peers[id].addr == addr && after.peers[id].last_seen == now
            &&& newer && d.peers[id].addr != addr ==> after.by_addr.contains_key(addr) && after.by_addr[addr] == id
                && !after.by_addr.contains_key(d.peers[id].addr)
            &&& !newer ==> after.peers[id].addr == d.peers[id].addr && after.by_addr == d.by_addr
            &&& !newer && d.peers[id].addr != addr ==> after.peers[id].last_seen == d.peers[id].last_seen
            &&& d.peers[id].addr == addr ==> after.peers[id].last_seen == now
            &&& d.peers.contains_key(other) ==> after.peers[other] == d.peers[other]
            &&& after.replay == d.replay
        }),
{
}

/// A datagram belongs to the session that its address is known for, where it fits it; otherwise
/// to one that it fits, if any is looked for.
pub proof fn datagrams_are_matched_to_sessions(
    d: Dispatch,
    addr: SocketAddr,
    packet: Seq<u8>,
    now: int,
    after: Dispatch,
    found: Option<u32>,
    id: u32,
)
    requires
        d.locates(addr, packet, now, after, found),
    ensures
        d.by_addr.contains_key(addr) && d.by_addr[addr] == id && d.peers.contains_key(id) && packet.len() >= 12 && header_id(
            packet,
            d.peers[id].obfuscation_key,
        ) == id ==> found == Some(id) && after == d,
        found == Some(id) ==> d.peers.contains_key(id) && packet.len() >= 12 && header_id(
            packet,
            d.peers[id].obfuscation_key,
        ) == id,
        after.peers == d.peers && after.by_addr == d.by_addr && after.replay == d.replay,
{
}

} // verus!
