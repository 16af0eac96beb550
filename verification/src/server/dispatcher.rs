//! Which session a datagram belongs to, who may begin one, and where its answers
//! go.

use vstd::prelude::*;
use vstd::slice::slice_subrange;
use vstd::utf8::encode_utf8;

use crate::bytes::{copy_of, copy_range, get_u32, get_u64, same_bytes, u16_at, u32_at, u64_at};
use crate::congestion::{larger, less, smaller};
use crate::crypto::noise::{noise_greeting, MESSAGE_OVERHEAD};
use crate::crypto::obfuscation::{
    deobfuscate_header_inplace, deobfuscate_packet_inplace, deobfuscated, derive_all_secrets, derive_junk_marker,
    junk_marker_of, masked, obfuscated, obfuscation_key_of, pad_max_of, pad_min_of, payload_mask, psk_of, DerivedSecrets,
};
use crate::framing::frame::Frame;
use crate::framing::AdaptivePadder;
use crate::ids::{lemma_ids, Ids};
use crate::net::SocketAddr;
use crate::protocol::laws::{fresh_packets_raise_the_highest, handshake_packets_round_trip};
use crate::protocol::machine::{acts_of, carries, initial, opt_bytes, outcome, pads_as, single, singles, tidy};
use crate::protocol::sent::reliable_count;
use crate::protocol::session::{handshake_packet, Act, Event, Fault, Session, HANDSHAKE_BUFFER};
use crate::protocol::{OstpEvent, ProtocolAction, ProtocolConfig, ProtocolMachine};
use crate::server::bucket::{Bucket, Tokens};
use crate::server::users::{Book, UserStats, Users};
use crate::table::{distinct, lemma_map_of, Table};
use crate::text::{owned, same_str, text_from, text_of, utf8_of};
use crate::time::{Clock, Instant};

verus! {

broadcast use crate::bytes::group_big_endian;

/// The most sessions at a time.
pub const MAX_SESSIONS: usize = 1024;

/// The most handshakes that are remembered. Where they are reached, old ones
/// give way; new handshakes are not refused for that.
pub const REPLAY_CACHE_MAX: usize = 50_000;

/// How far the clocks of the two ends may be apart, in seconds.
pub const MAX_DRIFT_SECS: u64 = 300;

/// Searches through the sessions for a datagram from an unknown address, per
/// second.
pub const ROAMING_RATE: u32 = 50;

/// Trials of all keys for a datagram of no session, per second.
pub const TRIAL_RATE: u32 = 100;

/// A session that is silent for ten minutes is dropped.
pub const SESSION_TIMEOUT_NANOS: u64 = 600_000_000_000;

// ── Model ────────────────────────────────────────────────────────────────────

/// A session and the client behind it.
#[verifier::ext_equal]
pub struct Peer {
    pub session: Session,
    pub addr: SocketAddr,
    pub obfuscation_key: Seq<u8>,
    pub last_seen: int,
    pub key: Seq<char>,
}

/// What the dispatcher knows.
#[verifier::ext_equal]
pub struct Dispatch {
    pub peers: Map<u32, Peer>,
    pub by_addr: Map<SocketAddr, u32>,
    /// Handshakes that were accepted, and when they were made.
    pub replay: Map<Seq<u8>, u64>,
    pub roaming: Tokens,
    pub trials: Tokens,
}

/// What becomes of a datagram.
pub enum Verdict {
    Unauthorized,
    Junk,
    Accepted { responses: Seq<Seq<u8>>, payloads: Seq<(u32, u16, Seq<u8>)>, addr: SocketAddr },
}

/// The session id in the masked header of a data packet.
pub open spec fn header_id(packet: Seq<u8>, key: Seq<u8>) -> int {
    u32_at(
        masked(packet.subrange(0, 12), payload_mask(key, packet.subrange(12, packet.len() as int)), 12),
        0,
    )
}

/// Whether a datagram is one of session `id`.
pub open spec fn fits(packet: Seq<u8>, key: Seq<u8>, id: u32) -> bool {
    packet.len() >= 12 && header_id(packet, key) == id
}

/// The datagrams to send, in order.
pub open spec fn sent_in(acts: Seq<Act>) -> Seq<Seq<u8>>
    decreases acts.len(),
{
    if acts.len() == 0 {
        Seq::empty()
    } else {
        match acts.last() {
            Act::Send(d) => sent_in(acts.drop_last()).push(d),
            _ => sent_in(acts.drop_last()),
        }
    }
}

/// The data to deliver for session `id`, in order.
pub open spec fn delivered_in(acts: Seq<Act>, id: u32) -> Seq<(u32, u16, Seq<u8>)>
    decreases acts.len(),
{
    if acts.len() == 0 {
        Seq::empty()
    } else {
        match acts.last() {
            Act::Deliver(stream, payload) => delivered_in(acts.drop_last(), id).push((id, stream, payload)),
            _ => delivered_in(acts.drop_last(), id),
        }
    }
}

/// The time of a handshake as a signed number.
pub open spec fn signed(ts: u64) -> int {
    if ts < 0x8000_0000_0000_0000 {
        ts as int
    } else {
        ts - 0x1_0000_0000_0000_0000
    }
}

/// Whether two times are at most the allowed drift apart.
pub open spec fn recent(now: u64, ts: u64) -> bool {
    -(MAX_DRIFT_SECS as int) <= now - signed(ts) <= MAX_DRIFT_SECS
}

/// The handshake payload of a client with key `key` for session `id`:
/// `[time:8][id:4][key]`, with a time that is recent.
pub open spec fn proper_greeting(payload: Seq<u8>, id: u32, key: Seq<char>, now: u64) -> bool {
    &&& payload.len() >= 12
    &&& u32_at(payload, 8) == id
    &&& text_of(payload.subrange(12, payload.len() as int)) == Some(key)
    &&& recent(now, u64_at(payload, 0) as u64)
}

/// The handshakes that are still recent.
pub open spec fn fresh_handshakes(m: Map<Seq<u8>, u64>, now: u64) -> Map<Seq<u8>, u64> {
    m.restrict(Set::new(|p: Seq<u8>| m.contains_key(p) && recent(now, m[p])))
}

/// How room is made for another handshake: a full memory forgets what is no
/// longer recent and, where that is not enough, one of the oldest.
pub open spec fn makes_room(before: Map<Seq<u8>, u64>, now: u64, after: Map<Seq<u8>, u64>) -> bool {
    if before.dom().len() < REPLAY_CACHE_MAX {
        after == before
    } else {
        let fresh = fresh_handshakes(before, now);
        if fresh.dom().len() < REPLAY_CACHE_MAX {
            after == fresh
        } else {
            exists|oldest: Seq<u8>| #[trigger]
                fresh.contains_key(oldest) && (forall|p: Seq<u8>| #[trigger]
                    fresh.contains_key(p) ==> fresh[oldest] <= fresh[p]) && after == fresh.remove(oldest)
        }
    }
}

/// What came of trying a key.
pub enum Attempt {
    /// The handshake was refused.
    Refused,
    /// It led to a session; the client sent `payload`, and gets `answer`.
    Greeted { session: Session, payload: Seq<u8>, answer: Option<Seq<u8>> },
}

/// The session id that a key reads in a handshake datagram.
pub open spec fn trial_id(packet: Seq<u8>, key: Seq<char>) -> u32 {
    u32_at(deobfuscated(packet, obfuscation_key_of(encode_utf8(key)), true), 0) as u32
}

/// The configuration with which a key is tried.
pub open spec fn trial_config(c: ProtocolConfig, base: ProtocolConfig, key: Seq<char>, id: u32) -> bool {
    let k = encode_utf8(key);
    &&& c.session_id == id
    &&& c.psk@ == psk_of(k)
    &&& c.handshake_payload@.len() == 0
    &&& c.obfuscation_key@ == obfuscation_key_of(k)
    &&& c.handshake_pad_min == pad_min_of(k)
    &&& c.handshake_pad_max == pad_max_of(k)
    &&& c.role == base.role
    &&& c.max_padding == base.max_padding
    &&& c.padding_strategy == base.padding_strategy
    &&& c.max_reorder == base.max_reorder
    &&& c.max_reorder_buffer == base.max_reorder_buffer
    &&& c.ack_delay_ms == base.ack_delay_ms
    &&& c.rto_ms == base.rto_ms
    &&& c.max_retries == base.max_retries
    &&& c.max_sent_history == base.max_sent_history
    &&& c.mtu == base.mtu
}

/// The handshake payload that a key finds in a datagram; nothing where it was not made
/// with that key.
pub open spec fn heard(packet: Seq<u8>, key: Seq<char>) -> Option<Seq<u8>> {
    let k = encode_utf8(key);
    let raw = deobfuscated(packet, obfuscation_key_of(k), true);
    if raw.len() < 6 || raw.len() < 6 + u16_at(raw, 4) {
        None
    } else {
        match noise_greeting(psk_of(k), raw.subrange(6, 6 + u16_at(raw, 4))) {
            Some(p) if p.len() <= HANDSHAKE_BUFFER => Some(p),
            _ => None,
        }
    }
}

/// Whether trying `key` on a datagram can come to `a`: a new session with the
/// secrets of the key handles it. It is refused only where the key finds no handshake.
pub open spec fn possible(a: Attempt, base: ProtocolConfig, key: Seq<char>, packet: Seq<u8>, now: int) -> bool {
    match a {
        Attempt::Refused => base.role is Responder ==> heard(packet, key) is None,
        Attempt::Greeted { session, payload, answer } => {
            &&& heard(packet, key) == Some(payload)
            &&& exists|c: ProtocolConfig, padder: AdaptivePadder|
                trial_config(c, base, key, trial_id(packet, key)) && pads_as(padder, c) && (#[trigger] initial(
                    c,
                    padder,
                    now,
                )).steps(Event::Inbound(packet), now, session, Ok(seq![Act::Greeted(payload, answer)]))
        },
    }
}

/// Whether a datagram begins with the marker of junk for `key` in this time
/// window or the one before it.
pub open spec fn is_junk(packet: Seq<u8>, key: Seq<char>, window: u64) -> bool {
    let before = if window == 0 {
        u64::MAX
    } else {
        (window - 1) as u64
    };
    packet.subrange(0, 4) == junk_marker_of(encode_utf8(key), window as int) || packet.subrange(0, 4)
        == junk_marker_of(encode_utf8(key), before as int)
}

/// Where and when a datagram arrived: its source, the session clock, the seconds
/// of the Unix time, and the window of junk markers.
#[derive(Clone, Copy)]
pub struct Arrival {
    pub peer: SocketAddr,
    pub now: Instant,
    pub unix: u64,
    pub window: u64,
}

impl Dispatch {
    /// Without session `id`.
    pub open spec fn dropped(self, id: u32) -> Dispatch {
        if self.peers.contains_key(id) {
            Dispatch { peers: self.peers.remove(id), by_addr: self.by_addr.remove(self.peers[id].addr), ..self }
        } else {
            self
        }
    }

    /// The session that the source address of a datagram is known for, where the
    /// datagram is one of it.
    pub open spec fn known_session(self, addr: SocketAddr, packet: Seq<u8>) -> Option<u32> {
        if self.by_addr.contains_key(addr) && self.peers.contains_key(self.by_addr[addr]) && fits(
            packet,
            self.peers[self.by_addr[addr]].obfuscation_key,
            self.by_addr[addr],
        ) {
            Some(self.by_addr[addr])
        } else {
            None
        }
    }

    /// Finding the session of a datagram leads to `after` with `found`. The
    /// session of the source address comes first; otherwise all are searched,
    /// as often as the rate allows.
    pub open spec fn locates(self, addr: SocketAddr, packet: Seq<u8>, now: int, after: Dispatch, found: Option<u32>) -> bool {
        match self.known_session(addr, packet) {
            Some(id) => after == self && found == Some(id),
            None => {
                let (tokens, granted) = self.roaming.taken(now);
                &&& after == (Dispatch { roaming: tokens, ..self })
                &&& match found {
                    Some(id) => granted && self.peers.contains_key(id) && fits(
                        packet,
                        self.peers[id].obfuscation_key,
                        id,
                    ),
                    None => granted ==> forall|id: u32| #[trigger]
                        self.peers.contains_key(id) ==> !fits(packet, self.peers[id].obfuscation_key, id),
                }
            },
        }
    }

    /// A session with a packet in it came to `session`; it moves to `addr` where
    /// the packet was authentic and newer than all before it. The clock of the
    /// session is set where the packet came from the address it is on.
    pub open spec fn moved(self, id: u32, session: Session, addr: SocketAddr, now: int) -> Dispatch {
        let p = self.peers[id];
        let raised = session.recv.highest is Some && session.recv.highest != p.session.recv.highest;
        let roamed = p.addr != addr && raised;
        let home = if roamed {
            addr
        } else {
            p.addr
        };
        Dispatch {
            by_addr: if roamed {
                self.by_addr.remove(p.addr).insert(addr, id)
            } else {
                self.by_addr
            },
            peers: self.peers.insert(
                id,
                Peer {
                    session,
                    addr: home,
                    last_seen: if home == addr {
                        now
                    } else {
                        p.last_seen
                    },
                    ..p
                },
            ),
            ..self
        }
    }

    /// A datagram of session `id` leads to `after` with `verdict`.
    pub open spec fn serves(
        self,
        book: Book,
        id: u32,
        packet: Seq<u8>,
        at: Arrival,
        after: Dispatch,
        book_after: Book,
        verdict: Verdict,
    ) -> bool {
        let p = self.peers[id];
        if !book.admits(p.key, at.unix) {
            &&& after == self.dropped(id)
            &&& book_after == book.known(p.key, at.unix)
            &&& verdict is Unauthorized
        } else {
            &&& book_after == book.up(p.key, packet.len() as u64, at.unix)
            &&& exists|session: Session, o: Result<Seq<Act>, Fault>| #[trigger]
                p.session.steps(Event::Inbound(packet), at.now.nanos as int, session, o) && match o {
                    Err(_) => after == (Dispatch {
                        peers: self.peers.insert(id, Peer { session, ..p }),
                        ..self
                    }) && verdict is Unauthorized,
                    Ok(acts) => after == self.moved(id, session, at.peer, at.now.nanos as int) && verdict
                        == (Verdict::Accepted {
                        responses: sent_in(acts),
                        payloads: delivered_in(acts, id),
                        addr: after.peers[id].addr,
                    }),
                }
        }
    }

    /// A client with key `key` was greeted; leads to `after` with `verdict`.
    pub open spec fn admits_client(
        self,
        book: Book,
        key: Seq<char>,
        packet: Seq<u8>,
        session: Session,
        payload: Seq<u8>,
        answer: Option<Seq<u8>>,
        at: Arrival,
        after: Dispatch,
        book_after: Book,
        verdict: Verdict,
    ) -> bool {
        let id = trial_id(packet, key);
        exists|room: Map<Seq<u8>, u64>| #[trigger]
            makes_room(self.replay, at.unix, room) && if self.peers.dom().len() >= MAX_SESSIONS {
                &&& after == (Dispatch { replay: room, ..self })
                &&& book_after == book
                &&& verdict is Unauthorized
            } else {
                let noted = Dispatch { replay: room.insert(payload, u64_at(payload, 0) as u64), ..self };
                &&& book_after == book.connected(key, at.unix)
                &&& if book_after.stats[key].over() {
                    after == noted && verdict is Unauthorized
                } else {
                    &&& after == (Dispatch {
                        peers: self.peers.insert(
                            id,
                            Peer {
                                session: Session {
                                    session_id: id,
                                    obfuscation_key: obfuscation_key_of(encode_utf8(key)),
                                    ..session
                                },
                                addr: at.peer,
                                obfuscation_key: obfuscation_key_of(encode_utf8(key)),
                                last_seen: at.now.nanos as int,
                                key,
                            },
                        ),
                        by_addr: self.by_addr.insert(at.peer, id),
                        ..noted
                    })
                    &&& verdict == (Verdict::Accepted {
                        responses: match answer {
                            Some(d) => seq![d],
                            None => Seq::empty(),
                        },
                        payloads: Seq::empty(),
                        addr: at.peer,
                    })
                }
            }
    }

    /// Trying the keys in `order`, with what came of each, leads to `after` with
    /// `verdict`. The first key whose junk it is, or whose client it is, decides.
    pub open spec fn tries(
        self,
        base: ProtocolConfig,
        book: Book,
        order: Seq<Seq<char>>,
        attempts: Seq<Attempt>,
        packet: Seq<u8>,
        at: Arrival,
        after: Dispatch,
        book_after: Book,
        verdict: Verdict,
    ) -> bool
        decreases order.len(),
    {
        if order.len() == 0 {
            after == self && book_after == book && verdict is Unauthorized
        } else {
            let key = order[0];
            let go_on = self.tries(
                base,
                book,
                order.drop_first(),
                attempts.drop_first(),
                packet,
                at,
                after,
                book_after,
                verdict,
            );
            if is_junk(packet, key, at.window) {
                after == self && book_after == book && verdict is Junk
            } else if packet.len() < 7 {
                go_on
            } else {
                possible(attempts[0], base, key, packet, at.now.nanos as int) && match attempts[0] {
                    Attempt::Refused => go_on,
                    Attempt::Greeted { session, payload, answer } => if !proper_greeting(
                        payload,
                        trial_id(packet, key),
                        key,
                        at.unix,
                    ) || self.replay.contains_key(payload) {
                        go_on
                    } else {
                        self.admits_client(
                            book,
                            key,
                            packet,
                            session,
                            payload,
                            answer,
                            at,
                            after,
                            book_after,
                            verdict,
                        )
                    },
                }
            }
        }
    }

    /// A datagram of no session leads to `after` with `verdict`: all keys are
    /// tried, in some order, as often as the rate allows.
    pub open spec fn knocks(
        self,
        base: ProtocolConfig,
        book: Book,
        packet: Seq<u8>,
        at: Arrival,
        after: Dispatch,
        book_after: Book,
        verdict: Verdict,
    ) -> bool {
        let (tokens, granted) = self.trials.taken(at.now.nanos as int);
        let a = Dispatch { trials: tokens, ..self };
        if !granted {
            after == a && book_after == book && verdict is Unauthorized
        } else {
            exists|order: Seq<Seq<char>>, attempts: Seq<Attempt>|
                order.to_set() == book.keys.dom() && order.no_duplicates() && attempts.len() == order.len()
                    && #[trigger] a.tries(base, book, order, attempts, packet, at, after, book_after, verdict)
        }
    }

    /// A datagram leads to `after` with `verdict`.
    pub open spec fn handles(
        self,
        base: ProtocolConfig,
        book: Book,
        packet: Seq<u8>,
        at: Arrival,
        after: Dispatch,
        book_after: Book,
        verdict: Verdict,
    ) -> bool {
        if packet.len() < 4 {
            after == self && book_after == book && verdict is Unauthorized
        } else {
            exists|mid: Dispatch, found: Option<u32>| #[trigger]
                self.locates(at.peer, packet, at.now.nanos as int, mid, found) && match found {
                    Some(id) => mid.serves(book, id, packet, at, after, book_after, verdict),
                    None => mid.knocks(base, book, packet, at, after, book_after, verdict),
                }
        }
    }
}

// ── The dispatcher ───────────────────────────────────────────────────────────

pub enum DispatchOutcome {
    Unauthorized,
    /// Junk of a registered key, to be dropped in silence.
    Junk,
    Accepted {
        responses: Vec<Vec<u8>>,
        /// Session, stream and payload.
        app_payloads: Vec<(u32, u16, Vec<u8>)>,
        peer_addr: SocketAddr,
    },
}

pub open spec fn byte_seqs(v: Seq<Vec<u8>>) -> Seq<Seq<u8>> {
    Seq::new(v.len(), |i: int| v[i]@)
}

pub open spec fn payload_seqs(v: Seq<(u32, u16, Vec<u8>)>) -> Seq<(u32, u16, Seq<u8>)> {
    Seq::new(v.len(), |i: int| (v[i].0, v[i].1, v[i].2@))
}

impl View for DispatchOutcome {
    type V = Verdict;

    open spec fn view(&self) -> Verdict {
        match self {
            DispatchOutcome::Unauthorized => Verdict::Unauthorized,
            DispatchOutcome::Junk => Verdict::Junk,
            DispatchOutcome::Accepted { responses, app_payloads, peer_addr } => Verdict::Accepted {
                responses: byte_seqs(responses@),
                payloads: payload_seqs(app_payloads@),
                addr: *peer_addr,
            },
        }
    }
}

/// A session and the client behind it.
pub struct PeerState {
    pub machine: ProtocolMachine,
    pub last_addr: SocketAddr,
    pub obfuscation_key: [u8; 8],
    pub last_seen: Instant,
    pub access_key: String,
}

impl View for PeerState {
    type V = Peer;

    open spec fn view(&self) -> Peer {
        Peer {
            session: self.machine@,
            addr: self.last_addr,
            obfuscation_key: self.obfuscation_key@,
            last_seen: self.last_seen.nanos as int,
            key: self.access_key@,
        }
    }
}

/// The sessions of a server.
pub struct Dispatcher {
    peers: Ids<PeerState>,
    by_addr: Table<SocketAddr, u32>,
    machine_config: ProtocolConfig,
    replay: Table<Vec<u8>, u64>,
    roaming: Bucket,
    trials: Bucket,
    /// Secrets of keys, which never change.
    secrets: Table<String, DerivedSecrets>,
    /// Junk markers of keys, with the window that they are for.
    junk: Table<String, (u64, [u8; 4], [u8; 4])>,
    clock: Clock,
}

pub open spec fn peer_views(m: Map<u32, PeerState>) -> Map<u32, Peer> {
    m.map_values(|p: PeerState| p@)
}

impl View for Dispatcher {
    type V = Dispatch;

    closed spec fn view(&self) -> Dispatch {
        Dispatch {
            peers: peer_views(self.peers@),
            by_addr: self.by_addr@,
            replay: self.replay@,
            roaming: self.roaming@,
            trials: self.trials@,
        }
    }
}

/// The window before `window`.
pub open spec fn window_before(window: u64) -> u64 {
    if window == 0 {
        u64::MAX
    } else {
        (window - 1) as u64
    }
}

/// The header key and id of a datagram: the session id that `key` reads in it.
fn candidate(packet: &[u8], key: &[u8; 8]) -> (r: Option<u32>)
    ensures
        match r {
            Some(id) => packet@.len() >= 12 && header_id(packet@, key@) == id,
            None => packet@.len() < 12,
        },
{
    let n: usize = packet.len();
    if n < 12 {
        return None;
    }
    let mut header: [u8; 12] = [
        packet[0],
        packet[1],
        packet[2],
        packet[3],
        packet[4],
        packet[5],
        packet[6],
        packet[7],
        packet[8],
        packet[9],
        packet[10],
        packet[11],
    ];
    assert(header@ =~= packet@.subrange(0, 12));
    deobfuscate_header_inplace(&mut header, slice_subrange(packet, 12, n), key, false);
    Some(get_u32(&header, 0))
}

proof fn lemma_every_peer(t: Ids<PeerState>)
    requires
        t.wf(),
    ensures
        forall|id: u32| #[trigger]
            peer_views(t@).contains_key(id) ==> exists|j: int|
                0 <= j < t.pairs().len() && (#[trigger] t.pairs()[j]).0 == id && t.pairs()[j].1@ == peer_views(t@)[id],
        forall|j: int|
            0 <= j < t.pairs().len() ==> t@.contains_key((#[trigger] t.pairs()[j]).0) && t@[t.pairs()[j].0]
                == t.pairs()[j].1,
        peer_views(t@).dom() == t@.dom(),
        t@.dom().finite(),
        t@.dom().len() == t.pairs().len(),
        distinct(t.pairs()),
{
    lemma_ids(t);
    lemma_map_of(t.pairs());
    assert(peer_views(t@).dom() =~= t@.dom());
    assert forall|id: u32| #[trigger] peer_views(t@).contains_key(id) implies exists|j: int|
        0 <= j < t.pairs().len() && (#[trigger] t.pairs()[j]).0 == id && t.pairs()[j].1@ == peer_views(t@)[id] by {
        assert(t@.contains_key(id));
        let j = choose|j: int| 0 <= j < t.pairs().len() && (#[trigger] t.pairs()[j]).0 == id;
        assert(t@[t.pairs()[j].0] == t.pairs()[j].1);
    }
}

impl Dispatcher {
    /// The tables are well formed, every session is, and what is remembered of
    /// keys is what they give.
    pub closed spec fn wf(&self) -> bool {
        &&& self.peers.wf()
        &&& self.by_addr.wf()
        &&& self.replay.wf()
        &&& self.secrets.wf()
        &&& self.junk.wf()
        &&& self.machine_config.mtu > 0
        &&& forall|id: u32| #[trigger] self.peers@.contains_key(id) ==> self.peers@[id].machine.wf()
        &&& forall|k: Seq<char>| #[trigger]
            self.secrets@.contains_key(k) ==> self.secrets@[k].of(encode_utf8(k)) && self.secrets@[k].handshake_pad_min
                < 80
        &&& forall|k: Seq<char>| #[trigger]
            self.junk@.contains_key(k) ==> self.junk@[k].1@ == junk_marker_of(encode_utf8(k), self.junk@[k].0 as int)
                && self.junk@[k].2@ == junk_marker_of(encode_utf8(k), window_before(self.junk@[k].0) as int)
    }

    /// The configuration of its sessions.
    pub closed spec fn config(&self) -> ProtocolConfig {
        self.machine_config
    }

    /// No sessions yet.
    pub fn new(machine_config: ProtocolConfig, clock: Clock, now: Instant) -> (r: Self)
        requires
            machine_config.mtu > 0,
        ensures
            r.wf(),
            r.config() == machine_config,
            r@ == (Dispatch {
                peers: Map::empty(),
                by_addr: Map::empty(),
                replay: Map::empty(),
                roaming: Tokens::full(ROAMING_RATE as int, now.nanos as int),
                trials: Tokens::full(TRIAL_RATE as int, now.nanos as int),
            }),
    {
        let r = Dispatcher {
            peers: Ids::new(),
            by_addr: Table::new(),
            machine_config,
            replay: Table::new(),
            roaming: Bucket::new(ROAMING_RATE, now),
            trials: Bucket::new(TRIAL_RATE, now),
            secrets: Table::new(),
            junk: Table::new(),
            clock,
        };
        assert(peer_views(r.peers@) =~= Map::empty());
        r
    }

    /// How many sessions there are.
    pub fn active_sessions(&self) -> (r: usize)
        requires
            self.wf(),
        ensures
            r == self@.peers.dom().len(),
            self@.peers.dom().finite(),
    {
        proof {
            lemma_every_peer(self.peers);
        }
        self.peers.len()
    }

    /// The address that replies of a session go to.
    pub fn session_address(&self, session_id: u32) -> (r: Option<SocketAddr>)
        requires
            self.wf(),
        ensures
            r == if self@.peers.contains_key(session_id) {
                Some(self@.peers[session_id].addr)
            } else {
                None
            },
    {
        match self.peers.get(session_id) {
            Some(p) => Some(p.last_addr),
            None => None,
        }
    }

    /// The session that an address belongs to.
    pub fn session_at(&self, addr: SocketAddr) -> (r: Option<u32>)
        requires
            self.wf(),
        ensures
            r == if self@.by_addr.contains_key(addr) {
                Some(self@.by_addr[addr])
            } else {
                None
            },
    {
        match self.by_addr.get(&addr) {
            Some(id) => Some(*id),
            None => None,
        }
    }

    /// Ends a session.
    pub fn drop_session(&mut self, session_id: u32)
        requires
            old(self).wf(),
        ensures
            final(self).wf(),
            final(self).config() == old(self).config(),
            final(self)@ == old(self)@.dropped(session_id),
    {
        let ghost start = self@;
        match self.peers.remove(session_id) {
            Some(p) => {
                let _ = self.by_addr.remove(&p.last_addr);
                assert(self@ =~= start.dropped(session_id)) by {
                    assert(peer_views(self.peers@) =~= start.peers.remove(session_id));
                }
            },
            None => {
                assert(!start.peers.contains_key(session_id));
            },
        }
    }

    /// The session of a datagram.
    fn find_session(&mut self, peer: SocketAddr, packet: &[u8], now: Instant) -> (r: Option<u32>)
        requires
            old(self).wf(),
        ensures
            final(self).wf(),
            final(self).config() == old(self).config(),
            old(self)@.locates(peer, packet@, now.nanos as int, final(self)@, r),
            r matches Some(id) ==> final(self)@.peers.contains_key(id),
    {
        let ghost start = self@;
        let known = match self.by_addr.get(&peer) {
            Some(id) => Some(*id),
            None => None,
        };
        if let Some(id) = known {
            match self.peers.get(id) {
                Some(p) => match candidate(packet, &p.obfuscation_key) {
                    Some(c) => {
                        if c == id {
                            return Some(id);
                        }
                    },
                    None => {},
                },
                None => {},
            }
        }
        let granted = self.roaming.take(now);
        assert(self@ =~= (Dispatch { roaming: start.roaming.taken(now.nanos as int).0, ..start }));
        if !granted {
            return None;
        }
        proof {
            lemma_every_peer(self.peers);
        }
        let n: usize = self.peers.len();
        let mut i: usize = 0;
        while i < n
            invariant
                self.peers.wf(),
                n == self.peers.pairs().len(),
                i <= n,
                forall|j: int|
                    0 <= j < i ==> !fits(
                        packet@,
                        (#[trigger] self.peers.pairs()[j]).1.obfuscation_key@,
                        self.peers.pairs()[j].0,
                    ),
                start.known_session(peer, packet@) is None,
                granted,
                granted == start.roaming.taken(now.nanos as int).1,
                self@ == (Dispatch { roaming: start.roaming.taken(now.nanos as int).0, ..start }),
                self.wf(),
                self.config() == old(self).config(),
                start == old(self)@,
            decreases n - i,
        {
            let id: u32 = self.peers.key_at(i);
            match candidate(packet, &self.peers.value_at(i).obfuscation_key) {
                Some(c) => {
                    if c == id {
                        assert(self.peers@.contains_key(id));
                        assert(self.peers@[id] == self.peers.pairs()[i as int].1);
                        assert(self@.peers[id].obfuscation_key == self.peers.pairs()[i as int].1.obfuscation_key@);
                        return Some(id);
                    }
                },
                None => {},
            }
            i += 1;
        }
        proof {
            lemma_every_peer(self.peers);
            assert forall|id: u32| #[trigger] start.peers.contains_key(id) implies !fits(
                packet@,
                start.peers[id].obfuscation_key,
                id,
            ) by {
                assert(peer_views(self.peers@).contains_key(id));
                let j = choose|j: int|
                    0 <= j < self.peers.pairs().len() && (#[trigger] self.peers.pairs()[j]).0 == id
                        && self.peers.pairs()[j].1@ == peer_views(self.peers@)[id];
                assert(!fits(packet@, self.peers.pairs()[j].1.obfuscation_key@, self.peers.pairs()[j].0));
            }
        }
        None
    }
}

// ── Datagrams of a session ───────────────────────────────────────────────────

fn collect_one(
    a: ProtocolAction,
    id: u32,
    responses: &mut Vec<Vec<u8>>,
    payloads: &mut Vec<(u32, u16, Vec<u8>)>,
)
    ensures
        byte_seqs(final(responses)@) == match single(a) {
            Act::Send(d) => byte_seqs(old(responses)@).push(d),
            _ => byte_seqs(old(responses)@),
        },
        payload_seqs(final(payloads)@) == match single(a) {
            Act::Deliver(stream, payload) => payload_seqs(old(payloads)@).push((id, stream, payload)),
            _ => payload_seqs(old(payloads)@),
        },
{
    match a {
        ProtocolAction::SendDatagram(d) => {
            responses.push(d);
            assert(byte_seqs(responses@) =~= byte_seqs(old(responses)@).push(d@));
        },
        ProtocolAction::DeliverApp(stream, payload) => {
            payloads.push((id, stream, payload));
            assert(payload_seqs(payloads@) =~= payload_seqs(old(payloads)@).push((id, stream, payload@)));
        },
        _ => {},
    }
}

fn reversed_actions(v: Vec<ProtocolAction>) -> (r: Vec<ProtocolAction>)
    ensures
        r@ == v@.reverse(),
{
    let mut v = v;
    let mut r: Vec<ProtocolAction> = Vec::new();
    let ghost all = v@;
    while v.len() > 0
        invariant
            v@.len() <= all.len(),
            v@ == all.subrange(0, v@.len() as int),
            r@.len() == all.len() - v@.len(),
            forall|k: int| 0 <= k < r@.len() ==> #[trigger] r@[k] == all[all.len() - 1 - k],
        decreases v@.len(),
    {
        let d = v.pop().unwrap();
        r.push(d);
    }
    assert(r@ =~= all.reverse());
    r
}

/// The datagrams to send and the data to deliver.
fn collect_action(action: ProtocolAction, id: u32) -> (r: (Vec<Vec<u8>>, Vec<(u32, u16, Vec<u8>)>))
    requires
        tidy(action),
    ensures
        byte_seqs(r.0@) == sent_in(acts_of(action)),
        payload_seqs(r.1@) == delivered_in(acts_of(action), id),
{
    let mut responses: Vec<Vec<u8>> = Vec::new();
    let mut payloads: Vec<(u32, u16, Vec<u8>)> = Vec::new();
    assert(byte_seqs(responses@) =~= Seq::<Seq<u8>>::empty());
    assert(payload_seqs(payloads@) =~= Seq::<(u32, u16, Seq<u8>)>::empty());
    let ghost none = Seq::<Act>::empty();
    assert(sent_in(none) =~= Seq::<Seq<u8>>::empty());
    assert(delivered_in(none, id) =~= Seq::<(u32, u16, Seq<u8>)>::empty());
    match action {
        ProtocolAction::Multiple(list) => {
            let ghost all = singles(list@);
            let ghost n = list@.len() as int;
            let ghost source = list@;
            let mut rest = reversed_actions(list);
            assert(all.subrange(0, 0) =~= Seq::<Act>::empty());
            while rest.len() > 0
                invariant
                    n == source.len(),
                    all == singles(source),
                    rest@.len() <= n,
                    forall|k: int| 0 <= k < rest@.len() ==> #[trigger] rest@[k] == source[n - 1 - k],
                    byte_seqs(responses@) == sent_in(all.subrange(0, n - rest@.len())),
                    payload_seqs(payloads@) == delivered_in(all.subrange(0, n - rest@.len()), id),
                decreases rest@.len(),
            {
                let ghost k = n - rest@.len();
                let a = rest.pop().unwrap();
                assert(a == source[k]);
                let ghost t = all.subrange(0, k + 1);
                assert(t.drop_last() =~= all.subrange(0, k));
                assert(t.last() == single(a));
                collect_one(a, id, &mut responses, &mut payloads);
            }
            assert(all.subrange(0, n) =~= all);
            assert(acts_of(action) == all);
        },
        ProtocolAction::Noop => {},
        other => {
            let ghost t = seq![single(other)];
            assert(t.drop_last() =~= none);
            assert(t.last() == single(other));
            assert(acts_of(action) == t);
            collect_one(other, id, &mut responses, &mut payloads);
            assert(byte_seqs(responses@) == sent_in(t));
            assert(payload_seqs(payloads@) == delivered_in(t, id));
        },
    }
    (responses, payloads)
}

impl PeerState {
    /// A datagram of the session. Returns what to do, and whether the session
    /// moved to the address that the datagram came from.
    fn receive(&mut self, packet: Vec<u8>, peer: SocketAddr, now: Instant) -> (r: Result<(ProtocolAction, bool), ()>)
        requires
            old(self).machine.wf(),
        ensures
            final(self).machine.wf(),
            exists|o: Result<Seq<Act>, Fault>| #[trigger]
                old(self)@.session.steps(Event::Inbound(packet@), now.nanos as int, final(self)@.session, o) && match r {
                    Ok((a, roamed)) => o == Ok::<Seq<Act>, Fault>(acts_of(a)) && tidy(a) && ({
                        let raised = final(self)@.session.recv.highest is Some && final(self)@.session.recv.highest
                            != old(self)@.session.recv.highest;
                        let home = if roamed {
                            peer
                        } else {
                            old(self)@.addr
                        };
                        &&& roamed == (old(self)@.addr != peer && raised)
                        &&& final(self)@ == (Peer {
                            session: final(self)@.session,
                            addr: home,
                            last_seen: if home == peer {
                                now.nanos as int
                            } else {
                                old(self)@.last_seen
                            },
                            ..old(self)@
                        })
                    }),
                    Err(_) => o is Err && final(self)@ == (Peer { session: final(self)@.session, ..old(self)@ }),
                },
    {
        let ghost start = self@;
        let before = self.machine.highest_authenticated_recv_nonce();
        let done = self.machine.on_event_at(OstpEvent::Inbound(packet), now);
        assert(start.session.steps(Event::Inbound(packet@), now.nanos as int, self.machine@, outcome(done)));
        let action = match done {
            Ok(a) => a,
            Err(_) => {
                return Err(());
            },
        };
        // The address moves only on a packet that also raised the highest
        // authenticated number: a copy of one that was seen already, sent from
        // another address, would otherwise redirect the session there.
        let raised = match self.machine.highest_authenticated_recv_nonce() {
            Some(h) => match before {
                Some(b) => b != h,
                None => true,
            },
            None => false,
        };
        let roamed = self.last_addr != peer && raised;
        if roamed {
            self.last_addr = peer;
        }
        if self.last_addr == peer {
            self.last_seen = now;
        }
        Ok((action, roamed))
    }
}

impl Dispatcher {
    /// A datagram of session `id`.
    fn serve(&mut self, id: u32, packet: &[u8], users: &mut Users, at: Arrival) -> (r: DispatchOutcome)
        requires
            old(self).wf(),
            old(users).wf(),
            old(self)@.peers.contains_key(id),
        ensures
            final(self).wf(),
            final(users).wf(),
            final(self).config() == old(self).config(),
            old(self)@.serves(old(users)@, id, packet@, at, final(self)@, final(users)@, r@),
    {
        let ghost start = self@;
        let ghost book = users@;
        let ghost peers0 = self.peers@;
        assert(peers0.contains_key(id));
        let (key, home) = match self.peers.get(id) {
            Some(p) => (owned(&p.access_key), p.last_addr),
            None => {
                return DispatchOutcome::Unauthorized;
            },
        };
        assert(key@ == start.peers[id].key);
        let stats = users.get_or_create(&key, at.unix);
        if !users.knows(&key) || stats.is_over_limit() {
            self.drop_session(id);
            return DispatchOutcome::Unauthorized;
        }
        users.track_up(&key, packet.len() as u64, at.unix);
        assert(users@ =~= book.up(key@, packet@.len() as u64, at.unix));
        let received = match self.peers.get_mut(id) {
            Some(p) => p.receive(copy_of(packet), at.peer, at.now),
            None => Err(()),
        };
        let ghost now = at.now.nanos as int;
        let ghost p1 = self.peers@[id];
        let ghost o = choose|o: Result<Seq<Act>, Fault>| #[trigger]
            start.peers[id].session.steps(Event::Inbound(packet@), now, p1@.session, o) && match received {
                Ok((a, roamed)) => o == Ok::<Seq<Act>, Fault>(acts_of(a)),
                Err(_) => o is Err,
            };
        assert(self.peers@ == peers0.insert(id, p1));
        assert(peer_views(self.peers@) =~= start.peers.insert(id, p1@));
        match received {
            Err(_) => {
                assert(self@ =~= (Dispatch { peers: start.peers.insert(id, p1@), ..start }));
                assert(start.peers[id].session.steps(Event::Inbound(packet@), now, p1@.session, o));
                DispatchOutcome::Unauthorized
            },
            Ok((action, roamed)) => {
                let mut reply = home;
                if roamed {
                    let _ = self.by_addr.remove(&home);
                    let _ = self.by_addr.insert(at.peer, id);
                    reply = at.peer;
                }
                assert(self@ =~= start.moved(id, p1@.session, at.peer, now));
                assert(start.peers[id].session.steps(Event::Inbound(packet@), now, p1@.session, o));
                assert(self@.peers[id].addr == reply);
                let (responses, app_payloads) = collect_action(action, id);
                DispatchOutcome::Accepted { responses, app_payloads, peer_addr: reply }
            },
        }
    }
}

// ── New sessions ─────────────────────────────────────────────────────────────

/// Whether a time is at most the allowed drift from now.
pub fn is_recent(now: u64, ts: u64) -> (r: bool)
    ensures
        r == recent(now, ts),
{
    let t: i128 = if ts < 0x8000_0000_0000_0000 {
        ts as i128
    } else {
        ts as i128 - 0x1_0000_0000_0000_0000
    };
    let d: i128 = now as i128 - t;
    -(MAX_DRIFT_SECS as i128) <= d && d <= MAX_DRIFT_SECS as i128
}

/// Whether a handshake payload is that of a client with `key` for session `id`.
pub fn is_proper_greeting(payload: &[u8], id: u32, key: &str, now: u64) -> (r: bool)
    ensures
        r == proper_greeting(payload@, id, key@, now),
{
    let n: usize = payload.len();
    if n < 12 {
        return false;
    }
    if get_u32(payload, 8) != id {
        return false;
    }
    match text_from(slice_subrange(payload, 12, n)) {
        Some(t) => same_str(&t, key) && is_recent(now, get_u64(payload, 0)),
        None => false,
    }
}

/// A client that a key greeted.
struct Greeting {
    machine: ProtocolMachine,
    payload: Vec<u8>,
    answer: Option<Vec<u8>>,
}

impl Greeting {
    spec fn attempt(&self) -> Attempt {
        Attempt::Greeted {
            session: self.machine@,
            payload: self.payload@,
            answer: opt_bytes(self.answer),
        }
    }
}

/// A key that did not decide over a datagram.
pub open spec fn passes(
    d: Dispatch,
    base: ProtocolConfig,
    key: Seq<char>,
    a: Attempt,
    packet: Seq<u8>,
    at: Arrival,
) -> bool {
    !is_junk(packet, key, at.window) && (packet.len() < 7 || possible(a, base, key, packet, at.now.nanos as int)
        && match a {
        Attempt::Refused => true,
        Attempt::Greeted { payload, .. } => !proper_greeting(payload, trial_id(packet, key), key, at.unix)
            || d.replay.contains_key(payload),
    })
}

proof fn lemma_skip(
    d: Dispatch,
    base: ProtocolConfig,
    book: Book,
    order: Seq<Seq<char>>,
    attempts: Seq<Attempt>,
    k: int,
    packet: Seq<u8>,
    at: Arrival,
    after: Dispatch,
    book_after: Book,
    verdict: Verdict,
)
    requires
        0 <= k <= order.len(),
        attempts.len() == order.len(),
        forall|j: int| 0 <= j < k ==> passes(d, base, #[trigger] order[j], attempts[j], packet, at),
        d.tries(
            base,
            book,
            order.subrange(k, order.len() as int),
            attempts.subrange(k, order.len() as int),
            packet,
            at,
            after,
            book_after,
            verdict,
        ),
    ensures
        d.tries(base, book, order, attempts, packet, at, after, book_after, verdict),
    decreases k,
{
    if k == 0 {
        assert(order.subrange(0, order.len() as int) =~= order);
        assert(attempts.subrange(0, order.len() as int) =~= attempts);
    } else {
        let o = order.drop_first();
        let a = attempts.drop_first();
        assert(o.subrange(k - 1, o.len() as int) =~= order.subrange(k, order.len() as int));
        assert(a.subrange(k - 1, o.len() as int) =~= attempts.subrange(k, order.len() as int));
        assert forall|j: int| 0 <= j < k - 1 implies passes(d, base, #[trigger] o[j], a[j], packet, at) by {
            assert(passes(d, base, order[j + 1], attempts[j + 1], packet, at));
        }
        lemma_skip(d, base, book, o, a, k - 1, packet, at, after, book_after, verdict);
        assert(passes(d, base, order[0], attempts[0], packet, at));
    }
}

impl Dispatcher {
    /// The secrets of a key.
    fn cached_secrets(&mut self, key: &String) -> (r: DerivedSecrets)
        requires
            old(self).wf(),
        ensures
            final(self).wf(),
            final(self)@ == old(self)@,
            final(self).config() == old(self).config(),
            r.of(encode_utf8(key@)),
            r.handshake_pad_min < 80,
    {
        if let Some(s) = self.secrets.get(key) {
            return *s;
        }
        let s = derive_all_secrets(&utf8_of(key));
        let _ = self.secrets.insert(owned(key), s);
        s
    }

    /// The junk markers of a key for a window and the one before it.
    fn cached_junk_markers(&mut self, key: &String, window: u64) -> (r: ([u8; 4], [u8; 4]))
        requires
            old(self).wf(),
        ensures
            final(self).wf(),
            final(self)@ == old(self)@,
            final(self).config() == old(self).config(),
            r.0@ == junk_marker_of(encode_utf8(key@), window as int),
            r.1@ == junk_marker_of(encode_utf8(key@), window_before(window) as int),
    {
        if let Some(c) = self.junk.get(key) {
            if c.0 == window {
                return (c.1, c.2);
            }
        }
        let k = utf8_of(key);
        let current = derive_junk_marker(&k, window);
        let earlier: u64 = if window == 0 {
            u64::MAX
        } else {
            window - 1
        };
        let before = derive_junk_marker(&k, earlier);
        let _ = self.junk.insert(owned(key), (window, current, before));
        (current, before)
    }

    /// Tries a key on a handshake datagram.
    fn try_key(&mut self, key: &String, packet: &[u8], now: Instant) -> (r: Option<Greeting>)
        requires
            old(self).wf(),
            packet@.len() >= 7,
        ensures
            final(self).wf(),
            final(self)@ == old(self)@,
            final(self).config() == old(self).config(),
            match r {
                Some(g) => g.machine.wf() && possible(g.attempt(), old(self).config(), key@, packet@, now.nanos as int),
                None => possible(Attempt::Refused, old(self).config(), key@, packet@, now.nanos as int),
            },
    {
        let secrets = self.cached_secrets(key);
        let mut trial = copy_of(packet);
        deobfuscate_packet_inplace(&mut trial, &secrets.obfuscation_key, true);
        let id: u32 = get_u32(&trial, 0);
        let base = &self.machine_config;
        let empty: Vec<u8> = Vec::new();
        let c = ProtocolConfig {
            role: base.role,
            psk: secrets.psk,
            session_id: id,
            handshake_payload: empty,
            max_padding: base.max_padding,
            padding_strategy: base.padding_strategy,
            obfuscation_key: secrets.obfuscation_key,
            max_reorder: base.max_reorder,
            max_reorder_buffer: base.max_reorder_buffer,
            ack_delay_ms: base.ack_delay_ms,
            rto_ms: base.rto_ms,
            max_retries: base.max_retries,
            max_sent_history: base.max_sent_history,
            handshake_pad_min: secrets.handshake_pad_min,
            handshake_pad_max: secrets.handshake_pad_max,
            mtu: base.mtu,
        };
        assert(trial_config(c, self.machine_config, key@, trial_id(packet@, key@)));
        let mut machine = match ProtocolMachine::new_at(c, self.clock, now) {
            Ok(m) => m,
            Err(_) => {
                return None;
            },
        };
        let ghost padder = choose|padder: AdaptivePadder|
            machine@ == #[trigger] initial(c, padder, now.nanos as int) && pads_as(padder, c);
        let ghost begin = machine@;
        let done = machine.on_event_at(OstpEvent::Inbound(copy_of(packet)), now);
        match done {
            Ok(ProtocolAction::HandshakePayload(payload, answer)) => {
                let g = Greeting { machine, payload, answer };
                proof {
                    let a = opt_bytes(answer);
                    assert(outcome(done) == Ok::<Seq<Act>, Fault>(seq![Act::Greeted(payload@, a)]));
                    assert(initial(c, padder, now.nanos as int).steps(
                        Event::Inbound(packet@),
                        now.nanos as int,
                        machine@,
                        Ok(seq![Act::Greeted(payload@, a)]),
                    ));
                }
                Some(g)
            },
            _ => None,
        }
    }

    /// Forgets handshakes that are no longer recent.
    fn purge_replay(&mut self, unix: u64)
        requires
            old(self).wf(),
        ensures
            final(self).wf(),
            final(self).config() == old(self).config(),
            final(self)@ == (Dispatch { replay: fresh_handshakes(old(self)@.replay, unix), ..old(self)@ }),
    {
        let mut all: Table<Vec<u8>, u64> = Table::new();
        std::mem::swap(&mut all, &mut self.replay);
        let ghost source = all@;
        let mut kept: Table<Vec<u8>, u64> = Table::new();
        while all.len() > 0
            invariant
                all.wf(),
                kept.wf(),
                forall|p: Seq<u8>| #[trigger] all@.contains_key(p) ==> source.contains_key(p) && source[p] == all@[p],
                forall|p: Seq<u8>| #[trigger]
                    kept@.contains_key(p) <==> source.contains_key(p) && !all@.contains_key(p) && recent(
                        unix,
                        source[p],
                    ),
                forall|p: Seq<u8>| #[trigger] kept@.contains_key(p) ==> kept@[p] == source[p],
            decreases all.pairs().len(),
        {
            let ghost before = all@;
            let ghost kept0 = kept@;
            let (k, v) = all.pop().unwrap();
            assert(before.contains_key(k@) && before[k@] == v);
            assert(source.contains_key(k@) && source[k@] == v);
            let ghost id = k@;
            if is_recent(unix, v) {
                kept.push_new(k, v);
            }
        }
        proof {
            lemma_map_of(all.pairs());
            crate::table::lemma_table_view(all);
            assert forall|p: Seq<u8>| !all@.contains_key(p) by {}
            assert(kept@ =~= fresh_handshakes(source, unix));
        }
        self.replay = kept;
        assert(self@ =~= (Dispatch { replay: fresh_handshakes(old(self)@.replay, unix), ..old(self)@ }));
    }

    /// Makes room for another handshake.
    fn make_room(&mut self, unix: u64)
        requires
            old(self).wf(),
        ensures
            final(self).wf(),
            final(self).config() == old(self).config(),
            makes_room(old(self)@.replay, unix, final(self)@.replay),
            final(self)@ == (Dispatch { replay: final(self)@.replay, ..old(self)@ }),
    {
        if self.replay.len() < REPLAY_CACHE_MAX {
            return;
        }
        self.purge_replay(unix);
        let n: usize = self.replay.len();
        if n < REPLAY_CACHE_MAX {
            return;
        }
        let ghost fresh = self@.replay;
        let mut oldest: usize = 0;
        let mut i: usize = 1;
        while i < n
            invariant
                self.replay.wf(),
                n == self.replay.pairs().len(),
                oldest < i <= n,
                forall|j: int|
                    0 <= j < i ==> self.replay.pairs()[oldest as int].1 <= (#[trigger] self.replay.pairs()[j]).1,
            decreases n - i,
        {
            if *self.replay.value_at(i) < *self.replay.value_at(oldest) {
                oldest = i;
            }
            i += 1;
        }
        proof {
            let pairs = self.replay.pairs();
            lemma_map_of(pairs);
            crate::table::lemma_table_view(self.replay);
            let id = pairs[oldest as int].0;
            assert(fresh.contains_key(id));
            assert forall|p: Seq<u8>| #[trigger] fresh.contains_key(p) implies fresh[id] <= fresh[p] by {
                let j = choose|j: int| 0 <= j < pairs.len() && (#[trigger] pairs[j]).0 == p;
                assert(fresh[pairs[j].0] == pairs[j].1);
                assert(fresh[pairs[oldest as int].0] == pairs[oldest as int].1);
            }
        }
        let ghost mid = self@;
        let _ = self.replay.remove_at(oldest);
        assert(self@ =~= (Dispatch { replay: self@.replay, ..old(self)@ }));
        assert(fresh == fresh_handshakes(old(self)@.replay, unix));
    }

    /// A client was greeted with a payload that was not seen before.
    fn welcome(&mut self, key: &String, packet: &[u8], g: Greeting, users: &mut Users, at: Arrival) -> (r: DispatchOutcome)
        requires
            old(self).wf(),
            old(users).wf(),
            g.machine.wf(),
            g.payload@.len() >= 12,
            packet@.len() >= 7,
        ensures
            final(self).wf(),
            final(users).wf(),
            final(self).config() == old(self).config(),
            old(self)@.admits_client(
                old(users)@,
                key@,
                packet@,
                g.machine@,
                g.payload@,
                opt_bytes(g.answer),
                at,
                final(self)@,
                final(users)@,
                r@,
            ),
    {
        let ghost start = self@;
        let ghost session0 = g.machine@;
        self.make_room(at.unix);
        let ghost room = self@.replay;
        assert(makes_room(start.replay, at.unix, room));
        proof {
            lemma_every_peer(self.peers);
        }
        if self.peers.len() >= MAX_SESSIONS {
            return DispatchOutcome::Unauthorized;
        }
        let Greeting { machine, payload, answer } = g;
        let mut machine = machine;
        let ts: u64 = get_u64(&payload, 0);
        let ghost payload0 = payload@;
        let _ = self.replay.insert(payload, ts);
        assert(self@ =~= (Dispatch { replay: room.insert(payload0, ts), ..start }));
        let secrets = self.cached_secrets(key);
        let mut trial = copy_of(packet);
        deobfuscate_packet_inplace(&mut trial, &secrets.obfuscation_key, true);
        let id: u32 = get_u32(&trial, 0);
        assert(id == trial_id(packet@, key@));
        machine.set_session_keys(id, secrets.obfuscation_key);
        let stats = users.track_connection(key, at.unix);
        if stats.is_over_limit() {
            return DispatchOutcome::Unauthorized;
        }
        let ghost noted = self@;
        let ghost peers1 = self.peers@;
        let p = PeerState {
            machine,
            last_addr: at.peer,
            obfuscation_key: secrets.obfuscation_key,
            last_seen: at.now,
            access_key: owned(key),
        };
        let ghost p0 = p@;
        let _ = self.peers.insert(id, p);
        let _ = self.by_addr.insert(at.peer, id);
        let mut responses: Vec<Vec<u8>> = Vec::new();
        match answer {
            Some(d) => {
                responses.push(d);
                assert(byte_seqs(responses@) =~= seq![d@]);
            },
            None => {
                assert(byte_seqs(responses@) =~= Seq::<Seq<u8>>::empty());
            },
        }
        let app_payloads: Vec<(u32, u16, Vec<u8>)> = Vec::new();
        assert(payload_seqs(app_payloads@) =~= Seq::<(u32, u16, Seq<u8>)>::empty());
        assert(peer_views(self.peers@) =~= noted.peers.insert(id, p0));
        assert(self@ =~= (Dispatch {
            peers: start.peers.insert(id, p0),
            by_addr: start.by_addr.insert(at.peer, id),
            ..noted
        }));
        assert(p0.session =~= (Session {
            session_id: id,
            obfuscation_key: obfuscation_key_of(encode_utf8(key@)),
            ..session0
        }));
        DispatchOutcome::Accepted { responses, app_payloads, peer_addr: at.peer }
    }
}

impl Dispatcher {
    /// A datagram of no session: all keys are tried.
    fn knock(&mut self, packet: &[u8], users: &mut Users, at: Arrival) -> (r: DispatchOutcome)
        requires
            old(self).wf(),
            old(users).wf(),
            packet@.len() >= 4,
        ensures
            final(self).wf(),
            final(users).wf(),
            final(self).config() == old(self).config(),
            old(self)@.knocks(old(self).config(), old(users)@, packet@, at, final(self)@, final(users)@, r@),
    {
        let ghost start = self@;
        let ghost book = users@;
        let ghost now = at.now.nanos as int;
        let granted = self.trials.take(at.now);
        let ghost a = self@;
        assert(a =~= (Dispatch { trials: start.trials.taken(now).0, ..start }));
        if !granted {
            return DispatchOutcome::Unauthorized;
        }
        let ghost order = key_order(users.keys);
        let ghost mut attempts: Seq<Attempt> = Seq::empty();
        let n: usize = users.keys.len();
        let mut i: usize = 0;
        proof {
            lemma_key_order(users.keys);
        }
        while i < n
            invariant
                self.wf(),
                users.wf(),
                self.config() == old(self).config(),
                self@ == a,
                users@ == book,
                order == key_order(users.keys),
                n == order.len(),
                i <= n,
                packet@.len() >= 4,
                now == at.now.nanos,
                attempts.len() == i,
                forall|j: int| 0 <= j < i ==> passes(a, self.config(), #[trigger] order[j], attempts[j], packet@, at),
                order.to_set() == book.keys.dom(),
                order.no_duplicates(),
                start == old(self)@,
                book == old(users)@,
                granted,
                granted == start.trials.taken(now).1,
                a == (Dispatch { trials: start.trials.taken(now).0, ..start }),
            decreases n - i,
        {
            let key = owned(users.keys.key_at(i));
            assert(key@ == order[i as int]);
            let (current, before) = self.cached_junk_markers(&key, at.window);
            let head = copy_range(packet, 0, 4);
            let junk = same_bytes(&head, &current) || same_bytes(&head, &before);
            assert(junk == is_junk(packet@, key@, at.window));
            if junk {
                proof {
                    lemma_decided(a, self.config(), book, order, attempts, Attempt::Refused, packet@, at, a, book, Verdict::Junk);
                }
                return DispatchOutcome::Junk;
            }
            if packet.len() >= 7 {
                let tried = self.try_key(&key, packet, at.now);
                match tried {
                    Some(g) => {
                        let id: u32 = self.read_id(&key, packet);
                        let seen = self.replay.contains_key(&g.payload);
                        if is_proper_greeting(&g.payload, id, &key, at.unix) && !seen {
                            let ghost attempt = g.attempt();
                            let r = self.welcome(&key, packet, g, users, at);
                            proof {
                                lemma_decided(
                                    a,
                                    self.config(),
                                    book,
                                    order,
                                    attempts,
                                    attempt,
                                    packet@,
                                    at,
                                    self@,
                                    users@,
                                    r@,
                                );
                            }
                            return r;
                        }
                        proof {
                            attempts = attempts.push(g.attempt());
                        }
                    },
                    None => {
                        proof {
                            attempts = attempts.push(Attempt::Refused);
                        }
                    },
                }
            } else {
                proof {
                    attempts = attempts.push(Attempt::Refused);
                }
            }
            i += 1;
        }
        proof {
            let rest = order.subrange(n as int, n as int);
            assert(rest =~= Seq::<Seq<char>>::empty());
            lemma_skip(a, self.config(), book, order, attempts, n as int, packet@, at, a, book, Verdict::Unauthorized);
            assert(a.tries(self.config(), book, order, attempts, packet@, at, a, book, Verdict::Unauthorized));
        }
        DispatchOutcome::Unauthorized
    }

    /// The session id that a key reads in a handshake datagram.
    fn read_id(&mut self, key: &String, packet: &[u8]) -> (r: u32)
        requires
            old(self).wf(),
            packet@.len() >= 4,
        ensures
            final(self).wf(),
            final(self)@ == old(self)@,
            final(self).config() == old(self).config(),
            r == trial_id(packet@, key@),
    {
        let secrets = self.cached_secrets(key);
        let mut trial = copy_of(packet);
        deobfuscate_packet_inplace(&mut trial, &secrets.obfuscation_key, true);
        get_u32(&trial, 0)
    }

    /// Handles a datagram.
    pub fn on_datagram(&mut self, peer: SocketAddr, packet: &[u8], users: &mut Users) -> (r: DispatchOutcome)
        requires
            old(self).wf(),
            old(users).wf(),
        ensures
            final(self).wf(),
            final(users).wf(),
            final(self).config() == old(self).config(),
            exists|at: Arrival|
                at.peer == peer && #[trigger] old(self)@.handles(
                    old(self).config(),
                    old(users)@,
                    packet@,
                    at,
                    final(self)@,
                    final(users)@,
                    r@,
                ),
    {
        let at = Arrival {
            peer,
            now: self.clock.now(),
            unix: crate::time::unix_secs(),
            window: crate::crypto::current_junk_window(),
        };
        self.on_datagram_at(packet, users, at)
    }

    /// Handles a datagram that arrived as `at` says.
    pub fn on_datagram_at(&mut self, packet: &[u8], users: &mut Users, at: Arrival) -> (r: DispatchOutcome)
        requires
            old(self).wf(),
            old(users).wf(),
        ensures
            final(self).wf(),
            final(users).wf(),
            final(self).config() == old(self).config(),
            old(self)@.handles(
                old(self).config(),
                old(users)@,
                packet@,
                at,
                final(self)@,
                final(users)@,
                r@,
            ),
    {
        if packet.len() < 4 {
            return DispatchOutcome::Unauthorized;
        }
        let ghost start = self@;
        let found = self.find_session(at.peer, packet, at.now);
        let ghost mid = self@;
        assert(start.locates(at.peer, packet@, at.now.nanos as int, mid, found));
        match found {
            Some(id) => self.serve(id, packet, users, at),
            None => self.knock(packet, users, at),
        }
    }

    /// Data for the client of a session: the datagram and where it goes. Nothing
    /// where there is no such session, or it is not established.
    pub fn outbound_to_session(
        &mut self,
        session_id: u32,
        stream_id: u16,
        payload: Vec<u8>,
        users: &mut Users,
        now: Instant,
        unix: u64,
    ) -> (r: Result<Option<(Vec<u8>, SocketAddr)>, crate::protocol::ProtocolError>)
        requires
            old(self).wf(),
            old(users).wf(),
        ensures
            final(self).wf(),
            final(users).wf(),
            final(self).config() == old(self).config(),
            old(self)@.sends_out(
                old(users)@,
                session_id,
                stream_id,
                payload@,
                now.nanos as int,
                unix,
                final(self)@,
                final(users)@,
                sent_view(r),
            ),
    {
        let ghost start = self@;
        let ghost peers0 = self.peers@;
        let (key, addr) = match self.peers.get(session_id) {
            Some(p) => (owned(&p.access_key), p.last_addr),
            None => {
                assert(!start.peers.contains_key(session_id));
                return Ok(None);
            },
        };
        assert(start.peers.contains_key(session_id));
        let done = match self.peers.get_mut(session_id) {
            Some(p) => p.machine.on_event_at(OstpEvent::Outbound(stream_id, payload), now),
            None => Ok(ProtocolAction::Noop),
        };
        let ghost p1 = self.peers@[session_id];
        assert(self.peers@ == peers0.insert(session_id, p1));
        assert(peer_views(self.peers@) =~= start.peers.insert(session_id, p1@));
        assert(p1@ =~= (Peer { session: p1@.session, ..start.peers[session_id] }));
        assert(self@ =~= (Dispatch { peers: start.peers.insert(session_id, p1@), ..start }));
        assert(start.peers[session_id].session.steps(
            Event::Outbound(stream_id, payload@),
            now.nanos as int,
            p1@.session,
            outcome(done),
        ));
        match done {
            Ok(ProtocolAction::SendDatagram(d)) => {
                users.track_down(&key, d.len() as u64, unix);
                Ok(Some((d, addr)))
            },
            Ok(a) => {
                proof {
                    lemma_outbound_is_send_or_nothing(
                        start.peers[session_id].session,
                        stream_id,
                        payload@,
                        now.nanos as int,
                        p1@.session,
                        outcome(done),
                    );
                }
                Ok(None)
            },
            Err(e) => Err(e),
        }
    }
}

pub open spec fn sent_view(r: Result<Option<(Vec<u8>, SocketAddr)>, crate::protocol::ProtocolError>) -> Result<
    Option<(Seq<u8>, SocketAddr)>,
    Fault,
> {
    match r {
        Ok(Some((d, addr))) => Ok(Some((d@, addr))),
        Ok(None) => Ok(None),
        Err(e) => Err(crate::protocol::machine::fault(e)),
    }
}

impl Dispatch {
    /// Data for the client of session `id` leads to `after` with `r`: a datagram
    /// and where it goes, or nothing where there is no such session or it is not
    /// established. What goes out counts for the user.
    pub open spec fn sends_out(
        self,
        book: Book,
        id: u32,
        stream: u16,
        payload: Seq<u8>,
        now: int,
        unix: u64,
        after: Dispatch,
        book_after: Book,
        r: Result<Option<(Seq<u8>, SocketAddr)>, Fault>,
    ) -> bool {
        if !self.peers.contains_key(id) {
            &&& r == Ok::<Option<(Seq<u8>, SocketAddr)>, Fault>(None)
            &&& after == self
            &&& book_after == book
        } else {
            let p = self.peers[id];
            let q = after.peers[id];
            &&& after == (Dispatch { peers: self.peers.insert(id, Peer { session: q.session, ..p }), ..self })
            &&& exists|o: Result<Seq<Act>, Fault>| #[trigger]
                p.session.steps(Event::Outbound(stream, payload), now, q.session, o) && match r {
                    Ok(Some((d, addr))) => o == Ok::<Seq<Act>, Fault>(seq![Act::Send(d)]) && addr == p.addr
                        && book_after == book.down(p.key, d.len() as u64, unix),
                    Ok(None) => o == Ok::<Seq<Act>, Fault>(Seq::empty()) && book_after == book,
                    Err(e) => o == Err::<Seq<Act>, Fault>(e) && book_after == book,
                }
        }
    }
}

/// Application data is sent, or nothing happens.
proof fn lemma_outbound_is_send_or_nothing(
    s: Session,
    stream: u16,
    payload: Seq<u8>,
    now: int,
    after: Session,
    o: Result<Seq<Act>, Fault>,
)
    requires
        s.steps(Event::Outbound(stream, payload), now, after, o),
    ensures
        o matches Ok(acts) ==> acts =~= Seq::empty() || (acts.len() == 1 && acts[0] is Send),
{
}

/// The keys of a table in order.
spec fn key_order<V>(t: Table<String, V>) -> Seq<Seq<char>> {
    Seq::new(t.pairs().len(), |i: int| t.pairs()[i].0)
}

proof fn lemma_key_order<V>(t: Table<String, V>)
    requires
        t.wf(),
    ensures
        key_order(t).to_set() == t@.dom(),
        key_order(t).no_duplicates(),
{
    lemma_map_of(t.pairs());
    crate::table::lemma_table_view(t);
    let o = key_order(t);
    let p = t.pairs();
    assert forall|k: Seq<char>| o.to_set().contains(k) == t@.dom().contains(k) by {
        if o.to_set().contains(k) {
            let j = choose|j: int| 0 <= j < o.len() && o[j] == k;
            assert(t@.contains_key(p[j].0));
        }
        if t@.dom().contains(k) {
            assert(t@.contains_key(k));
            let j = choose|j: int| 0 <= j < p.len() && (#[trigger] p[j]).0 == k;
            assert(o[j] == k);
        }
    }
    assert(o.to_set() =~= t@.dom());
    assert forall|i: int, j: int| 0 <= i < o.len() && 0 <= j < o.len() && i != j implies o[i] != o[j] by {
        if i < j {
            assert(p[i].0 != p[j].0);
        } else {
            assert(p[j].0 != p[i].0);
        }
    }
}

/// The key after the tried ones decides.
proof fn lemma_decided(
    d: Dispatch,
    base: ProtocolConfig,
    book: Book,
    order: Seq<Seq<char>>,
    tried: Seq<Attempt>,
    attempt: Attempt,
    packet: Seq<u8>,
    at: Arrival,
    after: Dispatch,
    book_after: Book,
    verdict: Verdict,
)
    requires
        tried.len() < order.len(),
        order.to_set() == book.keys.dom(),
        order.no_duplicates(),
        forall|j: int| 0 <= j < tried.len() ==> passes(d, base, #[trigger] order[j], tried[j], packet, at),
        is_junk(packet, order[tried.len() as int], at.window) ==> after == d && book_after == book && verdict is Junk,
        !is_junk(packet, order[tried.len() as int], at.window) ==> packet.len() >= 7 && (attempt matches Attempt::Greeted {
            session,
            payload,
            answer,
        } && possible(attempt, base, order[tried.len() as int], packet, at.now.nanos as int) && proper_greeting(
            payload,
            trial_id(packet, order[tried.len() as int]),
            order[tried.len() as int],
            at.unix,
        ) && !d.replay.contains_key(payload) && d.admits_client(
            book,
            order[tried.len() as int],
            packet,
            session,
            payload,
            answer,
            at,
            after,
            book_after,
            verdict,
        )),
    ensures
        exists|attempts: Seq<Attempt>|
            attempts.len() == order.len() && #[trigger] d.tries(base, book, order, attempts, packet, at, after, book_after, verdict),
{
    let k = tried.len() as int;
    let attempts = Seq::new(
        order.len(),
        |i: int|
            if i < k {
                tried[i]
            } else if i == k {
                attempt
            } else {
                Attempt::Refused
            },
    );
    let o = order.subrange(k, order.len() as int);
    let a = attempts.subrange(k, order.len() as int);
    assert(o[0] == order[k]);
    assert(a[0] == attempt);
    assert(d.tries(base, book, o, a, packet, at, after, book_after, verdict));
    assert forall|j: int| 0 <= j < k implies passes(d, base, #[trigger] order[j], attempts[j], packet, at) by {
        assert(passes(d, base, order[j], tried[j], packet, at));
    }
    lemma_skip(d, base, book, order, attempts, k, packet, at, after, book_after, verdict);
}

// ── Upkeep ───────────────────────────────────────────────────────────────────

/// A session that is silent for too long, or whose user is gone or has used what
/// there is.
pub open spec fn stale(p: Peer, book: Book, now: int, unix: u64) -> bool {
    less(now, p.last_seen) > SESSION_TIMEOUT_NANOS || !book.admits(p.key, unix)
}

/// A registered key that has used less than its limit, where it has one.
pub open spec fn within_limit(book: Book, key: Seq<char>) -> bool {
    book.keys.contains_key(key) && if book.stats.contains_key(key) {
        book.stats[key].limit_bytes matches Some(limit) ==> book.stats[key].bytes_up + book.stats[key].bytes_down
            < limit
    } else {
        book.keys[key].limit_bytes matches Some(limit) ==> 0 < limit
    }
}

/// A session of a registered key within its limit stays while its client was heard in the last
/// ten minutes, and is dropped once it was not; a session of any other key is dropped.
pub proof fn silent_sessions_are_dropped(p: Peer, book: Book, now: int, unix: u64)
    ensures
        stale(p, book, now, unix) <==> now - p.last_seen > 600_000_000_000 || !within_limit(book, p.key),
{
}

/// A tick of a session leads to `after`, and asks for `acts`; one that fails
/// asks for nothing.
pub open spec fn ticks(s: Session, now: int, after: Session, acts: Seq<Act>) -> bool {
    exists|o: Result<Seq<Act>, Fault>| #[trigger]
        s.steps(Event::Tick, now, after, o) && acts == match o {
            Ok(a) => a,
            Err(_) => Seq::empty(),
        }
}

pub open spec fn addressed(datagrams: Seq<Seq<u8>>, addr: SocketAddr) -> Seq<(Seq<u8>, SocketAddr)> {
    Seq::new(datagrams.len(), |i: int| (datagrams[i], addr))
}

/// The datagrams of all sessions, session by session, the last one of each first.
pub open spec fn frames_of(order: Seq<u32>, acts: Seq<Seq<Act>>, peers: Map<u32, Peer>) -> Seq<(Seq<u8>, SocketAddr)>
    decreases order.len(),
{
    if order.len() == 0 {
        Seq::empty()
    } else {
        frames_of(order.drop_last(), acts.drop_last(), peers) + addressed(
            sent_in(acts.last()).reverse(),
            peers[order.last()].addr,
        )
    }
}

pub open spec fn frame_views(v: Seq<(Vec<u8>, SocketAddr)>) -> Seq<(Seq<u8>, SocketAddr)> {
    Seq::new(v.len(), |i: int| (v[i].0@, v[i].1))
}

impl Dispatch {
    /// Without the handshakes that are no longer recent.
    pub open spec fn forgotten(self, unix: u64) -> Dispatch {
        Dispatch { replay: fresh_handshakes(self.replay, unix), ..self }
    }

    /// Without the sessions in `ids`.
    pub open spec fn without(self, ids: Set<u32>, after: Dispatch) -> bool {
        &&& after.peers == self.peers.remove_keys(ids)
        &&& forall|a: SocketAddr| #[trigger]
            after.by_addr.contains_key(a) <==> self.by_addr.contains_key(a) && !(exists|id: u32|
                ids.contains(id) && self.peers.contains_key(id) && (#[trigger] self.peers[id]).addr == a)
        &&& forall|a: SocketAddr| #[trigger] after.by_addr.contains_key(a) ==> after.by_addr[a] == self.by_addr[a]
        &&& after.replay == self.replay
        &&& after.roaming == self.roaming
        &&& after.trials == self.trials
    }
}

impl Book {
    /// The book with statistics for the keys of all sessions.
    pub open spec fn knows_all(self, peers: Map<u32, Peer>, unix: u64, after: Book) -> bool {
        &&& after.keys == self.keys
        &&& forall|k: Seq<char>| #[trigger]
            after.stats.contains_key(k) <==> self.stats.contains_key(k) || exists|id: u32| #[trigger]
                peers.contains_key(id) && peers[id].key == k
        &&& forall|k: Seq<char>| #[trigger] after.stats.contains_key(k) ==> after.stats[k] == self.stats_of(k, unix)
    }
}

fn push_frames(frames: &mut Vec<(Vec<u8>, SocketAddr)>, datagrams: Vec<Vec<u8>>, addr: SocketAddr)
    ensures
        frame_views(final(frames)@) == frame_views(old(frames)@) + addressed(byte_seqs(datagrams@).reverse(), addr),
{
    let mut rest = datagrams;
    let ghost all = byte_seqs(datagrams@);
    let ghost target = addressed(all.reverse(), addr);
    let ghost n = all.len() as int;
    assert(frame_views(frames@) =~= frame_views(old(frames)@) + target.subrange(0, 0));
    while rest.len() > 0
        invariant
            n == all.len(),
            target == addressed(all.reverse(), addr),
            rest@.len() <= n,
            forall|k: int| 0 <= k < rest@.len() ==> (#[trigger] rest@[k])@ == all[k],
            frame_views(frames@) == frame_views(old(frames)@) + target.subrange(0, n - rest@.len()),
        decreases rest@.len(),
    {
        let ghost before = frames@;
        let ghost k = n - rest@.len();
        let d = rest.pop().unwrap();
        assert(d@ == all.reverse()[k]);
        frames.push((d, addr));
        assert(frame_views(frames@) =~= frame_views(before).push((d@, addr)));
        assert(target.subrange(0, k + 1) =~= target.subrange(0, k).push(target[k]));
    }
    assert(target.subrange(0, n) =~= target);
}

impl Dispatcher {
    /// Forgets what was remembered of keys that are gone.
    fn trim_caches(&mut self, users: &Users)
        requires
            old(self).wf(),
            users.wf(),
        ensures
            final(self).wf(),
            final(self)@ == old(self)@,
            final(self).config() == old(self).config(),
            forall|k: Seq<char>| #[trigger] final(self).cached(k) ==> users@.keys.contains_key(k),
    {
        let mut i: usize = 0;
        while i < self.secrets.len()
            invariant
                self.wf(),
                users.wf(),
                self@ == old(self)@,
                self.config() == old(self).config(),
                i <= self.secrets.pairs().len(),
                forall|j: int| 0 <= j < i ==> users@.keys.contains_key((#[trigger] self.secrets.pairs()[j]).0),
            decreases self.secrets.pairs().len() - i,
        {
            if users.knows(self.secrets.key_at(i)) {
                i += 1;
            } else {
                let _ = self.secrets.remove_at(i);
            }
        }
        let mut j: usize = 0;
        while j < self.junk.len()
            invariant
                self.wf(),
                users.wf(),
                self@ == old(self)@,
                self.config() == old(self).config(),
                forall|k: int|
                    0 <= k < self.secrets.pairs().len() ==> users@.keys.contains_key(
                        (#[trigger] self.secrets.pairs()[k]).0,
                    ),
                j <= self.junk.pairs().len(),
                forall|k: int| 0 <= k < j ==> users@.keys.contains_key((#[trigger] self.junk.pairs()[k]).0),
            decreases self.junk.pairs().len() - j,
        {
            if users.knows(self.junk.key_at(j)) {
                j += 1;
            } else {
                let _ = self.junk.remove_at(j);
            }
        }
        proof {
            lemma_map_of(self.secrets.pairs());
            crate::table::lemma_table_view(self.secrets);
            lemma_map_of(self.junk.pairs());
            crate::table::lemma_table_view(self.junk);
        }
    }

    /// Whether anything is remembered of a key.
    pub closed spec fn cached(&self, k: Seq<char>) -> bool {
        self.secrets@.contains_key(k) || self.junk@.contains_key(k)
    }

    /// The sessions that are to be dropped.
    fn find_stale(&self, users: &mut Users, now: Instant, unix: u64) -> (r: Vec<u32>)
        requires
            self.wf(),
            old(users).wf(),
        ensures
            final(users).wf(),
            old(users)@.knows_all(self@.peers, unix, final(users)@),
            r@.no_duplicates(),
            r@.to_set() == Set::new(
                |id: u32|
                    self@.peers.contains_key(id) && stale(self@.peers[id], old(users)@, now.nanos as int, unix),
            ),
    {
        let ghost book = users@;
        let ghost pairs = self.peers.pairs();
        let mut out: Vec<u32> = Vec::new();
        let n: usize = self.peers.len();
        let mut i: usize = 0;
        proof {
            lemma_every_peer(self.peers);
        }
        while i < n
            invariant
                self.wf(),
                users.wf(),
                self.peers.wf(),
                pairs == self.peers.pairs(),
                n == pairs.len(),
                i <= n,
                users@.keys == book.keys,
                forall|k: Seq<char>| #[trigger]
                    users@.stats.contains_key(k) <==> book.stats.contains_key(k) || exists|j: int|
                        0 <= j < i && (#[trigger] pairs[j]).1.access_key@ == k,
                forall|k: Seq<char>| #[trigger]
                    users@.stats.contains_key(k) ==> users@.stats[k] == book.stats_of(k, unix),
                forall|x: u32| #[trigger]
                    out@.contains(x) <==> exists|j: int|
                        0 <= j < i && (#[trigger] pairs[j]).0 == x && stale(
                            pairs[j].1@,
                            book,
                            now.nanos as int,
                            unix,
                        ),
                out@.no_duplicates(),
            decreases n - i,
        {
            let id: u32 = self.peers.key_at(i);
            let p = self.peers.value_at(i);
            let ghost before = users@;
            let ghost out0 = out@;
            let ghost key = p.access_key@;
            assert(pairs[i as int].1.access_key@ == key);
            let stats = users.get_or_create(&p.access_key, unix);
            assert(stats == book.stats_of(key, unix));
            let gone = now.duration_since(p.last_seen).nanos > SESSION_TIMEOUT_NANOS || !users.knows(&p.access_key)
                || stats.is_over_limit();
            assert(gone == stale(pairs[i as int].1@, book, now.nanos as int, unix));
            assert forall|k: Seq<char>| #[trigger] users@.stats.contains_key(k) <==> book.stats.contains_key(k)
                || exists|j: int| 0 <= j < i + 1 && (#[trigger] pairs[j]).1.access_key@ == k by {
                if users@.stats.contains_key(k) && k != key {
                    assert(before.stats.contains_key(k));
                }
                if k == key {
                    assert(pairs[i as int].1.access_key@ == k);
                }
                if exists|j: int| 0 <= j < i + 1 && (#[trigger] pairs[j]).1.access_key@ == k {
                    let j = choose|j: int| 0 <= j < i + 1 && (#[trigger] pairs[j]).1.access_key@ == k;
                    if j < i {
                        assert(before.stats.contains_key(k));
                    }
                }
                if book.stats.contains_key(k) {
                    assert(before.stats.contains_key(k));
                }
            }
            if gone {
                assert(!out@.contains(id)) by {
                    if out@.contains(id) {
                        let j = choose|j: int|
                            0 <= j < i && (#[trigger] pairs[j]).0 == id && stale(
                                pairs[j].1@,
                                book,
                                now.nanos as int,
                                unix,
                            );
                        lemma_ids(self.peers);
                        assert(pairs[j].0 != pairs[i as int].0);
                    }
                }
                out.push(id);
                assert(out@ == out0.push(id));
            }
            assert forall|x: u32| #[trigger] out@.contains(x) <==> exists|j: int|
                0 <= j < i + 1 && (#[trigger] pairs[j]).0 == x && stale(pairs[j].1@, book, now.nanos as int, unix) by {
                if out@.contains(x) {
                    if out0.contains(x) {
                        let j = choose|j: int|
                            0 <= j < i && (#[trigger] pairs[j]).0 == x && stale(
                                pairs[j].1@,
                                book,
                                now.nanos as int,
                                unix,
                            );
                        assert(pairs[j].0 == x);
                    } else {
                        assert(pairs[i as int].0 == x);
                    }
                }
                if exists|j: int|
                    0 <= j < i + 1 && (#[trigger] pairs[j]).0 == x && stale(
                        pairs[j].1@,
                        book,
                        now.nanos as int,
                        unix,
                    ) {
                    let j = choose|j: int|
                        0 <= j < i + 1 && (#[trigger] pairs[j]).0 == x && stale(
                            pairs[j].1@,
                            book,
                            now.nanos as int,
                            unix,
                        );
                    if j < i {
                        assert(out0.contains(x));
                        let m = choose|m: int| 0 <= m < out0.len() && out0[m] == x;
                        assert(out@[m] == x);
                    } else {
                        assert(out@[out@.len() - 1] == x);
                    }
                }
            }
            i += 1;
        }
        proof {
            let wanted = Set::new(
                |id: u32| self@.peers.contains_key(id) && stale(self@.peers[id], book, now.nanos as int, unix),
            );
            assert forall|x: u32| out@.to_set().contains(x) == wanted.contains(x) by {
                if wanted.contains(x) {
                    let j = choose|j: int|
                        0 <= j < pairs.len() && (#[trigger] pairs[j]).0 == x && pairs[j].1@ == peer_views(self.peers@)[x];
                    assert(pairs[j].0 == x);
                    assert(out@.contains(x));
                }
                if out@.to_set().contains(x) {
                    assert(out@.contains(x));
                    let j = choose|j: int|
                        0 <= j < n && (#[trigger] pairs[j]).0 == x && stale(
                            pairs[j].1@,
                            book,
                            now.nanos as int,
                            unix,
                        );
                    assert(self.peers@.contains_key(pairs[j].0));
                }
            }
            assert(out@.to_set() =~= wanted);
            assert forall|k: Seq<char>| #[trigger] users@.stats.contains_key(k) <==> book.stats.contains_key(k)
                || exists|id: u32| #[trigger] self@.peers.contains_key(id) && self@.peers[id].key == k by {
                if exists|id: u32| #[trigger] self@.peers.contains_key(id) && self@.peers[id].key == k {
                    let id = choose|id: u32| #[trigger] self@.peers.contains_key(id) && self@.peers[id].key == k;
                    let j = choose|j: int|
                        0 <= j < pairs.len() && (#[trigger] pairs[j]).0 == id && pairs[j].1@ == peer_views(
                            self.peers@,
                        )[id];
                    assert(pairs[j].1.access_key@ == k);
                }
                if exists|j: int| 0 <= j < n && (#[trigger] pairs[j]).1.access_key@ == k {
                    let j = choose|j: int| 0 <= j < n && (#[trigger] pairs[j]).1.access_key@ == k;
                    assert(self.peers@.contains_key(pairs[j].0));
                    assert(self@.peers.contains_key(pairs[j].0));
                }
            }
        }
        out
    }

    /// Ends the sessions in a list.
    fn drop_all(&mut self, ids: &Vec<u32>)
        requires
            old(self).wf(),
            ids@.no_duplicates(),
            forall|i: int| 0 <= i < ids@.len() ==> old(self)@.peers.contains_key(#[trigger] ids@[i]),
        ensures
            final(self).wf(),
            final(self).config() == old(self).config(),
            old(self)@.without(ids@.to_set(), final(self)@),
    {
        let ghost start = self@;
        let mut i: usize = 0;
        let ghost all = ids@;
        assert(all.subrange(0, 0).to_set() =~= Set::<u32>::empty());
        assert(start.peers.remove_keys(Set::empty()) =~= start.peers);
        while i < ids.len()
            invariant
                self.wf(),
                self.config() == old(self).config(),
                start == old(self)@,
                all == ids@,
                i <= all.len(),
                all.no_duplicates(),
                forall|k: int| 0 <= k < all.len() ==> start.peers.contains_key(#[trigger] all[k]),
                start.without(all.subrange(0, i as int).to_set(), self@),
            decreases all.len() - i,
        {
            let ghost before = self@;
            let ghost done = all.subrange(0, i as int).to_set();
            let ghost more = all.subrange(0, i + 1).to_set();
            let id: u32 = ids[i];
            proof {
                assert forall|x: u32| more.contains(x) == (done.contains(x) || x == id) by {
                    let t = all.subrange(0, i + 1);
                    let u = all.subrange(0, i as int);
                    if done.contains(x) {
                        let k = choose|k: int| 0 <= k < u.len() && u[k] == x;
                        assert(t[k] == x);
                    }
                    if x == id {
                        assert(t[i as int] == x);
                    }
                    if more.contains(x) {
                        let k = choose|k: int| 0 <= k < t.len() && t[k] == x;
                        if k < i {
                            assert(u[k] == x);
                        }
                    }
                }
                assert(!done.contains(id)) by {
                    let u = all.subrange(0, i as int);
                    if done.contains(id) {
                        let k = choose|k: int| 0 <= k < u.len() && u[k] == id;
                        assert(all[k] == all[i as int]);
                    }
                }
                assert(start.peers.contains_key(all[i as int]));
            }
            self.drop_session(id);
            assert(before.peers.contains_key(id));
            assert(before.peers[id] == start.peers[id]);
            assert(self@.peers =~= start.peers.remove_keys(more));
            assert forall|a: SocketAddr| #[trigger]
                self@.by_addr.contains_key(a) <==> start.by_addr.contains_key(a) && !(exists|x: u32|
                    more.contains(x) && start.peers.contains_key(x) && (#[trigger] start.peers[x]).addr == a) by {
                if start.by_addr.contains_key(a) && a == start.peers[id].addr {
                    assert(more.contains(id) && start.peers.contains_key(id) && start.peers[id].addr == a);
                }
                if exists|x: u32| more.contains(x) && start.peers.contains_key(x) && (#[trigger] start.peers[x]).addr
                    == a {
                    let x = choose|x: u32|
                        more.contains(x) && start.peers.contains_key(x) && (#[trigger] start.peers[x]).addr == a;
                    if x != id {
                        assert(done.contains(x) && start.peers.contains_key(x) && start.peers[x].addr == a);
                    }
                }
                if before.by_addr.contains_key(a) && !self@.by_addr.contains_key(a) {
                    assert(start.peers[id].addr == a);
                }
                if exists|x: u32| done.contains(x) && start.peers.contains_key(x) && (#[trigger] start.peers[x]).addr
                    == a {
                    let x = choose|x: u32|
                        done.contains(x) && start.peers.contains_key(x) && (#[trigger] start.peers[x]).addr == a;
                    assert(more.contains(x) && start.peers.contains_key(x) && start.peers[x].addr == a);
                }
            }
            i += 1;
        }
        assert(all.subrange(0, i as int) =~= all);
    }
}

impl Dispatcher {
    /// Ticks every session and collects what they send.
    fn tick_sessions(&mut self, now: Instant) -> (r: Vec<(Vec<u8>, SocketAddr)>)
        requires
            old(self).wf(),
        ensures
            final(self).wf(),
            final(self).config() == old(self).config(),
            final(self)@ == (Dispatch { peers: final(self)@.peers, ..old(self)@ }),
            ticked_all(old(self)@.peers, now.nanos as int, final(self)@.peers, frame_views(r@)),
    {
        let ghost start = self@;
        let ghost t = now.nanos as int;
        let ghost p0 = self.peers.pairs();
        let ghost table0 = self.peers;
        let mut frames: Vec<(Vec<u8>, SocketAddr)> = Vec::new();
        let ghost mut acts: Seq<Seq<Act>> = Seq::empty();
        let ghost ids = Seq::new(p0.len(), |i: int| p0[i].0);
        let n: usize = self.peers.len();
        let mut i: usize = 0;
        proof {
            lemma_every_peer(self.peers);
            assert(frame_views(frames@) =~= Seq::<(Seq<u8>, SocketAddr)>::empty());
            assert(ids.subrange(0, 0) =~= Seq::<u32>::empty());
        }
        while i < n
            invariant
                self.wf(),
                self.config() == old(self).config(),
                self@.by_addr == start.by_addr,
                self@.replay == start.replay,
                self@.roaming == start.roaming,
                self@.trials == start.trials,
                table0.wf(),
                p0 == table0.pairs(),
                start.peers == peer_views(table0@),
                n == p0.len(),
                self.peers.pairs().len() == n,
                ids == Seq::new(p0.len(), |i: int| p0[i].0),
                i <= n,
                t == now.nanos,
                acts.len() == i,
                forall|j: int| 0 <= j < n ==> (#[trigger] self.peers.pairs()[j]).0 == p0[j].0,
                forall|j: int| i <= j < n ==> #[trigger] self.peers.pairs()[j] == p0[j],
                forall|j: int|
                    0 <= j < i ==> (#[trigger] self.peers.pairs()[j]).1@ == (Peer {
                        session: self.peers.pairs()[j].1@.session,
                        ..p0[j].1@
                    }) && ticks(p0[j].1@.session, t, self.peers.pairs()[j].1@.session, acts[j]),
                frame_views(frames@) == frames_of(ids.subrange(0, i as int), acts, start.peers),
            decreases n - i,
        {
            let id: u32 = self.peers.key_at(i);
            let ghost q0 = self.peers.pairs();
            let ghost m0 = self.peers@;
            let ghost f0 = frame_views(frames@);
            proof {
                lemma_every_peer(self.peers);
                assert(m0.contains_key(q0[i as int].0));
                assert(m0[q0[i as int].0] == q0[i as int].1);
            }
            let addr = self.peers.value_at(i).last_addr;
            let done = match self.peers.get_mut(id) {
                Some(p) => p.machine.on_event_at(OstpEvent::Tick, now),
                None => Ok(ProtocolAction::Noop),
            };
            let ghost q1 = self.peers.pairs();
            let ghost mine = q1[i as int].1@;
            proof {
                lemma_every_peer(self.peers);
                assert(self.peers@.contains_key(q1[i as int].0));
                assert(self.peers@[q1[i as int].0] == q1[i as int].1);
                assert(p0[i as int].1@.session.steps(Event::Tick, t, mine.session, outcome(done)));
                assert forall|j: int| 0 <= j < n && j != i implies #[trigger] q1[j] == q0[j] by {
                    if j < i {
                        assert(q0[j].0 != q0[i as int].0);
                    } else {
                        assert(q0[i as int].0 != q0[j].0);
                    }
                }
                assert(mine =~= (Peer { session: mine.session, ..p0[i as int].1@ }));
            }
            let ghost mut mine_acts: Seq<Act> = Seq::empty();
            match done {
                Ok(a) => {
                    proof {
                        mine_acts = acts_of(a);
                    }
                    let (responses, _) = collect_action(a, id);
                    push_frames(&mut frames, responses, addr);
                },
                Err(_) => {
                    assert(sent_in(mine_acts) =~= Seq::<Seq<u8>>::empty());
                    assert(frame_views(frames@) =~= f0 + addressed(sent_in(mine_acts).reverse(), addr));
                },
            }
            proof {
                assert(ticks(p0[i as int].1@.session, t, mine.session, mine_acts));
                let acts0 = acts;
                acts = acts.push(mine_acts);
                assert(acts.drop_last() =~= acts0);
                let o = ids.subrange(0, i + 1);
                assert(o.drop_last() =~= ids.subrange(0, i as int));
                assert(o.last() == id);
                assert(table0@.contains_key(p0[i as int].0)) by {
                    lemma_every_peer(table0);
                }
                assert(start.peers[id].addr == addr) by {
                    lemma_every_peer(table0);
                    assert(table0@[p0[i as int].0] == p0[i as int].1);
                }
                assert(frame_views(frames@) == frames_of(o, acts, start.peers));
            }
            i += 1;
        }
        proof {
            lemma_every_peer(self.peers);
            lemma_every_peer(table0);
            assert(ids.subrange(0, n as int) =~= ids);
            let q = self.peers.pairs();
            let after = self@.peers;
            assert forall|id: u32| after.contains_key(id) == start.peers.contains_key(id) by {
                if after.contains_key(id) {
                    let j = choose|j: int|
                        0 <= j < q.len() && (#[trigger] q[j]).0 == id && q[j].1@ == peer_views(self.peers@)[id];
                    assert(table0@.contains_key(p0[j].0));
                }
                if start.peers.contains_key(id) {
                    let j = choose|j: int|
                        0 <= j < p0.len() && (#[trigger] p0[j]).0 == id && p0[j].1@ == peer_views(table0@)[id];
                    assert(self.peers@.contains_key(q[j].0));
                }
            }
            assert(after.dom() =~= start.peers.dom());
            assert forall|j: int| 0 <= j < ids.len() implies after[#[trigger] ids[j]] == (Peer {
                session: after[ids[j]].session,
                ..start.peers[ids[j]]
            }) && ticks(start.peers[ids[j]].session, t, after[ids[j]].session, acts[j]) by {
                assert(self.peers@.contains_key(q[j].0));
                assert(self.peers@[q[j].0] == q[j].1);
                assert(table0@[p0[j].0] == p0[j].1);
            }
            assert(ids.to_set() =~= start.peers.dom()) by {
                assert forall|id: u32| ids.to_set().contains(id) == start.peers.dom().contains(id) by {
                    if start.peers.contains_key(id) {
                        let j = choose|j: int|
                            0 <= j < p0.len() && (#[trigger] p0[j]).0 == id && p0[j].1@ == peer_views(table0@)[id];
                        assert(ids[j] == id);
                    }
                    if ids.to_set().contains(id) {
                        let j = choose|j: int| 0 <= j < ids.len() && ids[j] == id;
                        assert(table0@.contains_key(p0[j].0));
                    }
                }
            }
            assert forall|a: int, b: int| 0 <= a < ids.len() && 0 <= b < ids.len() && a != b implies ids[a]
                != ids[b] by {
                if a < b {
                    assert(p0[a].0 != p0[b].0);
                } else {
                    assert(p0[b].0 != p0[a].0);
                }
            }
            assert(self@ =~= (Dispatch { peers: after, ..start }));
        }
        frames
    }

    /// Time passed: old handshakes are forgotten, stale sessions end, and every
    /// other one is ticked. Returns the datagrams to send, and the sessions that
    /// ended.
    pub fn on_tick(&mut self, users: &mut Users, now: Instant, unix: u64) -> (r: (
        Vec<(Vec<u8>, SocketAddr)>,
        Vec<u32>,
    ))
        requires
            old(self).wf(),
            old(users).wf(),
        ensures
            final(self).wf(),
            final(users).wf(),
            final(self).config() == old(self).config(),
            old(users)@.knows_all(old(self)@.peers, unix, final(users)@),
            r.1@.no_duplicates(),
            r.1@.to_set() == Set::new(
                |id: u32|
                    old(self)@.peers.contains_key(id) && stale(
                        old(self)@.peers[id],
                        old(users)@,
                        now.nanos as int,
                        unix,
                    ),
            ),
            exists|mid: Dispatch| #[trigger]
                old(self)@.forgotten(unix).without(r.1@.to_set(), mid) && final(self)@ == (Dispatch { peers: final(self)@.peers, ..mid }) && ticked_all(
                    mid.peers,
                    now.nanos as int,
                    final(self)@.peers,
                    frame_views(r.0@),
                ),
            forall|k: Seq<char>| #[trigger] final(self).cached(k) ==> old(users)@.keys.contains_key(k),
            forall|id: u32| #[trigger]
                old(self)@.peers.contains_key(id) ==> (final(self)@.peers.contains_key(id) <==> now.nanos
                    - old(self)@.peers[id].last_seen <= 600_000_000_000 && within_limit(
                    old(users)@,
                    old(self)@.peers[id].key,
                )) && (r.1@.contains(id) <==> !final(self)@.peers.contains_key(id)),
            forall|id: u32| #[trigger] final(self)@.peers.contains_key(id) ==> old(self)@.peers.contains_key(id),
    {
        let ghost start = self@;
        let ghost book = users@;
        self.purge_replay(unix);
        let ghost purged = self@;
        assert(purged == start.forgotten(unix));
        let expired = self.find_stale(users, now, unix);
        proof {
            assert forall|i: int| 0 <= i < expired@.len() implies self@.peers.contains_key(#[trigger] expired@[i]) by {
                assert(expired@.to_set().contains(expired@[i]));
            }
        }
        self.drop_all(&expired);
        let ghost mid = self@;
        assert(purged.without(expired@.to_set(), mid));
        let frames = self.tick_sessions(now);
        self.trim_caches(users);
        assert(start.forgotten(unix).without(expired@.to_set(), mid));
        assert(self@ == (Dispatch { peers: self@.peers, ..mid }));
        assert(ticked_all(mid.peers, now.nanos as int, self@.peers, frame_views(frames@)));
        let r = (frames, expired);
        assert(start.forgotten(unix).without(r.1@.to_set(), mid));
        assert(ticked_all(mid.peers, now.nanos as int, self@.peers, frame_views(r.0@)));
        assert forall|id: u32| #[trigger] start.peers.contains_key(id) implies (self@.peers.contains_key(id) <==> now.nanos
            - start.peers[id].last_seen <= 600_000_000_000 && within_limit(book, start.peers[id].key)) && (
        r.1@.contains(id) <==> !self@.peers.contains_key(id)) by {
            silent_sessions_are_dropped(start.peers[id], book, now.nanos as int, unix);
            assert(r.1@.to_set().contains(id) == r.1@.contains(id));
            assert(self@.peers.dom().contains(id) == mid.peers.dom().contains(id));
        }
        assert forall|id: u32| #[trigger] self@.peers.contains_key(id) implies start.peers.contains_key(id) by {
            assert(mid.peers.dom().contains(id));
        }
        r
    }

    /// How many packets each session can still take: the window, from 16 to 16384
    /// packets, without what is in flight.
    pub fn snapshot_backpressure(&self) -> (r: Vec<(u32, i64)>)
        requires
            self.wf(),
        ensures
            r@.len() == self@.peers.dom().len(),
            forall|i: int|
                0 <= i < r@.len() ==> self@.peers.contains_key((#[trigger] r@[i]).0) && r@[i].1 == headroom(
                    self@.peers[r@[i].0].session,
                ),
            forall|i: int, j: int| 0 <= i < j < r@.len() ==> (#[trigger] r@[i]).0 != (#[trigger] r@[j]).0,
    {
        let mut out: Vec<(u32, i64)> = Vec::new();
        let n: usize = self.peers.len();
        let mut i: usize = 0;
        proof {
            lemma_every_peer(self.peers);
        }
        while i < n
            invariant
                self.wf(),
                n == self.peers.pairs().len(),
                i <= n,
                out@.len() == i,
                forall|j: int| 0 <= j < i ==> (#[trigger] out@[j]).0 == self.peers.pairs()[j].0,
                forall|j: int|
                    0 <= j < i ==> (#[trigger] out@[j]).1 == headroom(self.peers.pairs()[j].1.machine@),
            decreases n - i,
        {
            let id: u32 = self.peers.key_at(i);
            let m = &self.peers.value_at(i).machine;
            assert(self.peers@.contains_key(id) && self.peers@[id].machine.wf());
            let w: usize = m.cwnd_packets();
            let window: i64 = if w < 16 {
                16
            } else if w > 16384 {
                16384
            } else {
                w as i64
            };
            let busy: usize = m.in_flight_count();
            out.push((id, window - busy as i64));
            i += 1;
        }
        proof {
            lemma_every_peer(self.peers);
            assert forall|j: int| 0 <= j < out@.len() implies self@.peers.contains_key((#[trigger] out@[j]).0)
                && out@[j].1 == headroom(self@.peers[out@[j].0].session) by {
                assert(self.peers@.contains_key(self.peers.pairs()[j].0));
                assert(self.peers@[self.peers.pairs()[j].0] == self.peers.pairs()[j].1);
            }
            assert forall|a: int, b: int| 0 <= a < b < out@.len() implies (#[trigger] out@[a]).0 != (
            #[trigger] out@[b]).0 by {
                assert(self.peers.pairs()[a].0 != self.peers.pairs()[b].0);
            }
        }
        out
    }
}

/// How many packets a session can still take.
pub open spec fn headroom(s: Session) -> int {
    smaller(larger(s.cc.packets(), 16), 16384) - reliable_count(s.sent)
}

/// Ticking all sessions leads to `after`, and sends `frames`.
pub open spec fn ticked_all(
    before: Map<u32, Peer>,
    now: int,
    after: Map<u32, Peer>,
    frames: Seq<(Seq<u8>, SocketAddr)>,
) -> bool {
    exists|order: Seq<u32>, acts: Seq<Seq<Act>>|
        after.dom() == before.dom() && order.to_set() == before.dom() && order.no_duplicates() && acts.len()
            == order.len() && (forall|i: int|
            0 <= i < order.len() ==> after[#[trigger] order[i]] == (Peer {
                session: after[order[i]].session,
                ..before[order[i]]
            }) && ticks(before[order[i]].session, now, after[order[i]].session, acts[i])) && frames
            == #[trigger] frames_of(order, acts, before)
}

// ── What the dispatcher tells ────────────────────────────────────────────────

/// A user as the management interface shows it.
#[derive(Debug, Clone)]
pub struct UserStatsSnapshot {
    pub access_key: String,
    pub name: Option<String>,
    pub bytes_up: u64,
    pub bytes_down: u64,
    pub connections: u64,
    pub limit_bytes: Option<u64>,
    pub online: bool,
    /// Seconds since the Unix epoch.
    pub last_seen: Option<u64>,
}

/// When a user was last seen: at the latest of the times of their sessions.
pub open spec fn last_seen_at(peers: Map<u32, Peer>, key: Seq<char>, t: int) -> bool {
    &&& exists|id: u32| #[trigger] peers.contains_key(id) && peers[id].key == key && peers[id].last_seen == t
    &&& forall|id: u32| #[trigger] peers.contains_key(id) && peers[id].key == key ==> peers[id].last_seen <= t
}

/// Whether a user has a session.
pub open spec fn is_online(peers: Map<u32, Peer>, key: Seq<char>) -> bool {
    exists|id: u32| #[trigger] peers.contains_key(id) && peers[id].key == key
}

/// A snapshot shows a user.
pub open spec fn shows(s: UserStatsSnapshot, key: Seq<char>, u: UserStats, peers: Map<u32, Peer>, now: int, unix: u64) -> bool {
    &&& s.access_key@ == key
    &&& s.name is None
    &&& s.bytes_up == u.bytes_up
    &&& s.bytes_down == u.bytes_down
    &&& s.connections == u.connections
    &&& s.limit_bytes == u.limit_bytes
    &&& s.online == is_online(peers, key)
    &&& match s.last_seen {
        Some(secs) => exists|t: int| #[trigger]
            last_seen_at(peers, key, t) && secs == less(unix as int, less(now, t) / 1_000_000_000),
        None => !is_online(peers, key),
    }
}

impl Dispatcher {
    /// When a user was last seen in a session.
    fn latest(&self, key: &String) -> (r: Option<Instant>)
        requires
            self.wf(),
        ensures
            match r {
                Some(t) => last_seen_at(self@.peers, key@, t.nanos as int) && is_online(self@.peers, key@),
                None => !is_online(self@.peers, key@),
            },
    {
        let mut found: Option<Instant> = None;
        let n: usize = self.peers.len();
        let mut i: usize = 0;
        let ghost pairs = self.peers.pairs();
        let ghost mut who: int = 0;
        while i < n
            invariant
                self.wf(),
                pairs == self.peers.pairs(),
                n == pairs.len(),
                i <= n,
                match found {
                    Some(t) => {
                        &&& 0 <= who < i
                        &&& pairs[who].1@.key == key@
                        &&& pairs[who].1@.last_seen == t.nanos
                        &&& forall|j: int|
                            0 <= j < i && (#[trigger] pairs[j]).1@.key == key@ ==> pairs[j].1@.last_seen <= t.nanos
                    },
                    None => forall|j: int| 0 <= j < i ==> (#[trigger] pairs[j]).1@.key != key@,
                },
            decreases n - i,
        {
            let p = self.peers.value_at(i);
            if same_str(&p.access_key, key) {
                match found {
                    Some(t) => {
                        if p.last_seen.nanos > t.nanos {
                            found = Some(p.last_seen);
                            proof {
                                who = i as int;
                            }
                        }
                    },
                    None => {
                        found = Some(p.last_seen);
                        proof {
                            who = i as int;
                        }
                    },
                }
            }
            i += 1;
        }
        proof {
            lemma_every_peer(self.peers);
            let peers = self@.peers;
            assert forall|id: u32| #[trigger] peers.contains_key(id) && peers[id].key == key@ implies exists|j: int|
                0 <= j < n && (#[trigger] pairs[j]).1@ == peers[id] by {
                let j = choose|j: int|
                    0 <= j < pairs.len() && (#[trigger] pairs[j]).0 == id && pairs[j].1@ == peer_views(self.peers@)[id];
                assert(pairs[j].1@ == peers[id]);
            }
            if let Some(t) = found {
                let id = pairs[who].0;
                assert(self.peers@.contains_key(pairs[who].0));
                assert(self.peers@[pairs[who].0] == pairs[who].1);
                assert(peers.contains_key(id) && peers[id].key == key@ && peers[id].last_seen == t.nanos);
                assert forall|x: u32| #[trigger] peers.contains_key(x) && peers[x].key == key@ implies peers[x].last_seen
                    <= t.nanos by {
                    let j = choose|j: int| 0 <= j < n && (#[trigger] pairs[j]).1@ == peers[x];
                    assert(pairs[j].1@.key == key@);
                }
            }
        }
        found
    }

    /// All users with statistics.
    pub fn snapshot_all_users(&self, users: &Users, now: Instant, unix: u64) -> (r: Vec<UserStatsSnapshot>)
        requires
            self.wf(),
            users.wf(),
        ensures
            r@.len() == users.stats.pairs().len(),
            forall|i: int|
                0 <= i < r@.len() ==> shows(
                    #[trigger] r@[i],
                    users.stats.pairs()[i].0,
                    users.stats.pairs()[i].1,
                    self@.peers,
                    now.nanos as int,
                    unix,
                ),
    {
        let mut out: Vec<UserStatsSnapshot> = Vec::new();
        let n: usize = users.stats.len();
        let mut i: usize = 0;
        while i < n
            invariant
                self.wf(),
                users.wf(),
                n == users.stats.pairs().len(),
                i <= n,
                out@.len() == i,
                forall|j: int|
                    0 <= j < i ==> shows(
                        #[trigger] out@[j],
                        users.stats.pairs()[j].0,
                        users.stats.pairs()[j].1,
                        self@.peers,
                        now.nanos as int,
                        unix,
                    ),
            decreases n - i,
        {
            let key = users.stats.key_at(i);
            let u = users.stats.value_at(i);
            let seen = self.latest(key);
            let last_seen = match seen {
                Some(t) => Some(unix.saturating_sub(now.duration_since(t).as_secs())),
                None => None,
            };
            proof {
                if let Some(t) = seen {
                    assert(last_seen_at(self@.peers, key@, t.nanos as int));
                }
            }
            let s = UserStatsSnapshot {
                access_key: owned(key),
                name: None,
                bytes_up: u.bytes_up,
                bytes_down: u.bytes_down,
                connections: u.connections,
                limit_bytes: u.limit_bytes,
                online: last_seen.is_some(),
                last_seen,
            };
            out.push(s);
            i += 1;
        }
        out
    }
}

// ── Laws ─────────────────────────────────────────────────────────────────────

/// A session moves to another address only for a packet that raised the highest
/// authenticated number of the session.
pub proof fn sessions_move_for_fresh_packets_only(d: Dispatch, id: u32, session: Session, addr: SocketAddr, now: int)
    requires
        d.peers.contains_key(id),
    ensures
        ({
            let t = d.moved(id, session, addr, now);
            &&& t.peers[id].addr != d.peers[id].addr ==> t.peers[id].addr == addr && session.recv.highest is Some
                && session.recv.highest != d.peers[id].session.recv.highest
            &&& t.peers[id].addr != d.peers[id].addr ==> t.by_addr.contains_key(addr) && t.by_addr[addr] == id
            &&& forall|other: u32| other != id && #[trigger] d.peers.contains_key(other) ==> t.peers[other]
                == d.peers[other]
        }),
{
}

proof fn lemma_own_packets_fit(packet: Seq<u8>, s: Session, key: Seq<u8>, nonce: u64, f: Frame)
    requires
        carries(packet, s, key, nonce, f),
    ensures
        fits(packet, s.obfuscation_key, s.session_id),
{
    let raw = deobfuscated(packet, s.obfuscation_key, false);
    let head = masked(
        packet.subrange(0, 12),
        payload_mask(s.obfuscation_key, packet.subrange(12, packet.len() as int)),
        12,
    );
    assert(head =~= raw.subrange(0, 12));
    assert(forall|i: int| 0 <= i < 4 ==> head[i] == raw[i]);
    assert(u32_at(head, 0) == u32_at(raw, 0)) by {
        reveal(u16_at);
        reveal(u32_at);
    }
}

/// A client that changes its address keeps its session: the first new packet from there
/// brings the session along, and its answers go there. The packet has to be of this
/// session alone, and the rate of searches has to allow one.
#[verifier::spinoff_prover]
#[verifier::rlimit(40)]
pub proof fn clients_roam(
    d: Dispatch,
    base: ProtocolConfig,
    book: Book,
    packet: Seq<u8>,
    at: Arrival,
    after: Dispatch,
    book_after: Book,
    verdict: Verdict,
    id: u32,
    key: Seq<u8>,
    nonce: u64,
    f: Frame,
)
    requires
        d.handles(base, book, packet, at, after, book_after, verdict),
        d.peers.contains_key(id),
        ({
            let s = d.peers[id].session;
            &&& s.state is Established || s.state is Closing
            &&& s.session_id == id
            &&& s.obfuscation_key == d.peers[id].obfuscation_key
            &&& carries(packet, s, key, nonce, f)
            &&& s.recv_key == Some(key)
            &&& !s.recv.stalled(s.gap_timeout(), at.now.nanos as int)
            &&& s.recv.expected <= nonce <= s.recv.furthest()
            &&& s.recv.highest matches Some(h) ==> h < nonce
        }),
        forall|other: u32| #[trigger]
            d.peers.contains_key(other) && other != id ==> !fits(packet, d.peers[other].obfuscation_key, other),
        d.roaming.taken(at.now.nanos as int).1,
        book.admits(d.peers[id].key, at.unix),
    ensures
        after.peers.contains_key(id),
        after.peers[id].key == d.peers[id].key,
        after.peers[id].session.recv.highest == Some(nonce),
        verdict matches Verdict::Accepted { addr, .. } ==> addr == at.peer && after.peers[id].addr == at.peer && (
        d.peers[id].addr != at.peer ==> after.by_addr.contains_key(at.peer) && after.by_addr[at.peer] == id),
        !(verdict is Junk),
{
    let s = d.peers[id].session;
    let now = at.now.nanos as int;
    let raw = deobfuscated(packet, s.obfuscation_key, false);
    lemma_own_packets_fit(packet, s, key, nonce, f);
    let (mid, found) = choose|mid: Dispatch, found: Option<u32>| #[trigger]
        d.locates(at.peer, packet, now, mid, found) && match found {
            Some(id) => mid.serves(book, id, packet, at, after, book_after, verdict),
            None => mid.knocks(base, book, packet, at, after, book_after, verdict),
        };
    assert(found == Some(id));
    let (session, o) = choose|session: Session, o: Result<Seq<Act>, Fault>| #[trigger]
        s.steps(Event::Inbound(packet), now, session, o) && match o {
            Err(_) => after == (Dispatch { peers: mid.peers.insert(id, Peer { session, ..mid.peers[id] }), ..mid })
                && verdict is Unauthorized,
            Ok(acts) => after == mid.moved(id, session, at.peer, now) && verdict == (Verdict::Accepted {
                responses: sent_in(acts),
                payloads: delivered_in(acts, id),
                addr: after.peers[id].addr,
            }),
        };
    let (p, q) = choose|p: Seq<u8>, q: Seq<u8>| (session, o) == #[trigger] s.data_in(raw, p, q, now);
    fresh_packets_raise_the_highest(s, key, packet, nonce, f, p, q, now);
}

/// A datagram that is refused adds no session, and changes none.
pub proof fn refused_datagrams_add_no_session(
    d: Dispatch,
    base: ProtocolConfig,
    book: Book,
    order: Seq<Seq<char>>,
    attempts: Seq<Attempt>,
    packet: Seq<u8>,
    at: Arrival,
    after: Dispatch,
    book_after: Book,
    verdict: Verdict,
)
    requires
        d.tries(base, book, order, attempts, packet, at, after, book_after, verdict),
        !(verdict is Accepted),
    ensures
        after.peers == d.peers,
        after.by_addr == d.by_addr,
    decreases order.len(),
{
    if order.len() > 0 {
        let key = order[0];
        if !is_junk(packet, key, at.window) {
            if packet.len() < 7 || attempts[0] is Refused || !proper_greeting(
                attempts[0]->payload,
                trial_id(packet, key),
                key,
                at.unix,
            ) || d.replay.contains_key(attempts[0]->payload) {
                refused_datagrams_add_no_session(
                    d,
                    base,
                    book,
                    order.drop_first(),
                    attempts.drop_first(),
                    packet,
                    at,
                    after,
                    book_after,
                    verdict,
                );
            }
        }
    }
}

proof fn lemma_replayed(
    d: Dispatch,
    base: ProtocolConfig,
    book: Book,
    order: Seq<Seq<char>>,
    attempts: Seq<Attempt>,
    packet: Seq<u8>,
    at: Arrival,
    after: Dispatch,
    book_after: Book,
    verdict: Verdict,
)
    requires
        d.tries(base, book, order, attempts, packet, at, after, book_after, verdict),
        forall|i: int|
            0 <= i < order.len() ==> (heard(packet, #[trigger] order[i]) matches Some(p) ==> d.replay.contains_key(p)),
    ensures
        !(verdict is Accepted),
        after == d,
        book_after == book,
    decreases order.len(),
{
    if order.len() > 0 && !is_junk(packet, order[0], at.window) {
        let rest = order.drop_first();
        assert forall|i: int| 0 <= i < rest.len() && heard(packet, #[trigger] rest[i]) is Some implies d.replay.contains_key(
            heard(packet, rest[i])->0,
        ) by {
            assert(rest[i] == order[i + 1]);
        }
        assert(heard(packet, order[0]) matches Some(p) ==> d.replay.contains_key(p));
        lemma_replayed(
            d,
            base,
            book,
            rest,
            attempts.drop_first(),
            packet,
            at,
            after,
            book_after,
            verdict,
        );
    }
}

/// A datagram of no session whose handshake is remembered is not accepted again, under
/// whichever key, and changes nothing but the count of trials.
pub proof fn replayed_handshakes_are_refused(
    d: Dispatch,
    base: ProtocolConfig,
    book: Book,
    packet: Seq<u8>,
    at: Arrival,
    after: Dispatch,
    book_after: Book,
    verdict: Verdict,
)
    requires
        d.knocks(base, book, packet, at, after, book_after, verdict),
        forall|k: Seq<char>| #[trigger]
            book.keys.contains_key(k) ==> (heard(packet, k) matches Some(p) ==> d.replay.contains_key(p)),
    ensures
        !(verdict is Accepted),
        after == (Dispatch { trials: after.trials, ..d }),
        book_after == book,
{
    let (tokens, granted) = d.trials.taken(at.now.nanos as int);
    if granted {
        let a = Dispatch { trials: tokens, ..d };
        let (order, attempts) = choose|order: Seq<Seq<char>>, attempts: Seq<Attempt>|
            order.to_set() == book.keys.dom() && order.no_duplicates() && attempts.len() == order.len()
                && #[trigger] a.tries(base, book, order, attempts, packet, at, after, book_after, verdict);
        assert forall|i: int| 0 <= i < order.len() && heard(packet, #[trigger] order[i]) is Some implies a.replay.contains_key(
            heard(packet, order[i])->0,
        ) by {
            assert(order.to_set().contains(order[i]));
            assert(book.keys.contains_key(order[i]));
        }
        lemma_replayed(a, base, book, order, attempts, packet, at, after, book_after, verdict);
    }
}

/// The number of sessions stays within its limit.
pub proof fn sessions_stay_within_their_limit(
    d: Dispatch,
    base: ProtocolConfig,
    book: Book,
    order: Seq<Seq<char>>,
    attempts: Seq<Attempt>,
    packet: Seq<u8>,
    at: Arrival,
    after: Dispatch,
    book_after: Book,
    verdict: Verdict,
)
    requires
        d.tries(base, book, order, attempts, packet, at, after, book_after, verdict),
        d.peers.dom().finite(),
        d.peers.dom().len() <= MAX_SESSIONS,
    ensures
        after.peers.dom().finite(),
        after.peers.dom().len() <= MAX_SESSIONS,
    decreases order.len(),
{
    if order.len() > 0 {
        let key = order[0];
        if !is_junk(packet, key, at.window) {
            if packet.len() < 7 || attempts[0] is Refused || !proper_greeting(
                attempts[0]->payload,
                trial_id(packet, key),
                key,
                at.unix,
            ) || d.replay.contains_key(attempts[0]->payload) {
                sessions_stay_within_their_limit(
                    d,
                    base,
                    book,
                    order.drop_first(),
                    attempts.drop_first(),
                    packet,
                    at,
                    after,
                    book_after,
                    verdict,
                );
            } else {
                let id = trial_id(packet, key);
                if after.peers != d.peers {
                    assert(after.peers.dom() =~= d.peers.dom().insert(id));
                }
            }
        }
    }
}

/// What a client sends first is heard under its key, as the session that it is for.
pub proof fn a_clients_first_datagram_is_heard(c: Session, key: Seq<char>, d: Seq<u8>)
    requires
        c.greets(d),
        c.can_greet(),
        c.psk == psk_of(encode_utf8(key)),
        c.obfuscation_key == obfuscation_key_of(encode_utf8(key)),
    ensures
        heard(d, key) == Some(c.greeting),
        trial_id(d, key) == c.session_id,
{
    let noise = choose|noise: Seq<u8>| #[trigger]
        c.wraps(d, noise) && noise.len() == c.greeting.len() + MESSAGE_OVERHEAD && noise_greeting(c.psk, noise) == Some(
            c.greeting,
        );
    let pad = choose|pad: Seq<u8>|
        #![trigger handshake_packet(c.session_id, noise, pad)]
        c.pad_min <= pad.len() <= c.pad_max && d == obfuscated(
            handshake_packet(c.session_id, noise, pad),
            c.obfuscation_key,
            true,
        );
    handshake_packets_round_trip(c.session_id, c.obfuscation_key, noise, pad);
}

/// Whether a new client is found under `key` in a datagram.
pub open spec fn finds_client(d: Dispatch, packet: Seq<u8>, key: Seq<char>, unix: u64) -> bool {
    heard(packet, key) matches Some(p) && proper_greeting(p, trial_id(packet, key), key, unix)
        && !d.replay.contains_key(p)
}

/// Whether `after` has the client with `key` that a datagram brought.
pub open spec fn has_client(after: Dispatch, verdict: Verdict, packet: Seq<u8>, key: Seq<char>, at: Arrival) -> bool {
    let id = trial_id(packet, key);
    &&& verdict matches Verdict::Accepted { responses, addr, .. } && responses.len() == 1 && addr == at.peer
    &&& after.peers.contains_key(id)
    &&& after.peers[id].key == key
    &&& after.peers[id].addr == at.peer
    &&& after.peers[id].session.state is Established
    &&& after.by_addr.contains_key(at.peer)
    &&& after.by_addr[at.peer] == id
    &&& heard(packet, key) matches Some(p) && after.replay.contains_key(p)
}

/// What a possible greeting of a responder is: an established session, with an answer.
proof fn lemma_greeted(
    base: ProtocolConfig,
    key: Seq<char>,
    packet: Seq<u8>,
    now: int,
    session: Session,
    payload: Seq<u8>,
    answer: Option<Seq<u8>>,
)
    requires
        base.role is Responder,
        possible(Attempt::Greeted { session, payload, answer }, base, key, packet, now),
    ensures
        session.state is Established,
        answer is Some,
{
    let (c, padder) = choose|c: ProtocolConfig, padder: AdaptivePadder|
        trial_config(c, base, key, trial_id(packet, key)) && pads_as(padder, c) && (#[trigger] initial(
            c,
            padder,
            now,
        )).steps(Event::Inbound(packet), now, session, Ok(seq![Act::Greeted(payload, answer)]));
    let start = initial(c, padder, now);
    assert(start.steps(Event::Inbound(packet), now, session, Ok(seq![Act::Greeted(payload, answer)])));
    let acts = seq![Act::Greeted(payload, answer)];
    assert(acts[0] == Act::Greeted(payload, answer));
}

proof fn lemma_let_in(
    d: Dispatch,
    base: ProtocolConfig,
    book: Book,
    order: Seq<Seq<char>>,
    attempts: Seq<Attempt>,
    packet: Seq<u8>,
    at: Arrival,
    after: Dispatch,
    book_after: Book,
    verdict: Verdict,
    key: Seq<char>,
)
    requires
        d.tries(base, book, order, attempts, packet, at, after, book_after, verdict),
        attempts.len() == order.len(),
        packet.len() >= 7,
        base.role is Responder,
        order.contains(key),
        forall|i: int| 0 <= i < order.len() ==> !is_junk(packet, #[trigger] order[i], at.window),
        forall|i: int|
            0 <= i < order.len() ==> (finds_client(d, packet, #[trigger] order[i], at.unix) == (order[i] == key)),
        d.peers.dom().len() < MAX_SESSIONS,
        !book.connected(key, at.unix).stats[key].over(),
    ensures
        has_client(after, verdict, packet, key, at),
        book_after == book.connected(key, at.unix),
    decreases order.len(),
{
    let i = choose|i: int| 0 <= i < order.len() && order[i] == key;
    assert(order[i] == key);
    let first = order[0];
    if first == key {
        match attempts[0] {
            Attempt::Greeted { session, payload, answer } => {
                lemma_greeted(base, key, packet, at.now.nanos as int, session, payload, answer);
            },
            Attempt::Refused => {},
        }
    } else {
        let rest = order.drop_first();
        assert(rest[i - 1] == key);
        assert forall|j: int| 0 <= j < rest.len() implies !is_junk(packet, #[trigger] rest[j], at.window) by {
            assert(rest[j] == order[j + 1]);
        }
        assert forall|j: int| 0 <= j < rest.len() implies (finds_client(d, packet, #[trigger] rest[j], at.unix) == (
        rest[j] == key)) by {
            assert(rest[j] == order[j + 1]);
        }
        lemma_let_in(
            d,
            base,
            book,
            rest,
            attempts.drop_first(),
            packet,
            at,
            after,
            book_after,
            verdict,
            key,
        );
    }
}

/// A client with a registered key is let in: it gets a session at its address, and an
/// answer. This holds of each datagram that is of no session and no key's junk and is a
/// new handshake under that key alone, while there is room for sessions, the rate allows
/// a trial and the user is within the limit.
pub proof fn known_clients_are_let_in(
    d: Dispatch,
    base: ProtocolConfig,
    book: Book,
    packet: Seq<u8>,
    at: Arrival,
    after: Dispatch,
    book_after: Book,
    verdict: Verdict,
    key: Seq<char>,
)
    requires
        d.handles(base, book, packet, at, after, book_after, verdict),
        base.role is Responder,
        packet.len() >= 7,
        forall|id: u32| #[trigger] d.peers.contains_key(id) ==> !fits(packet, d.peers[id].obfuscation_key, id),
        d.trials.taken(at.now.nanos as int).1,
        forall|k: Seq<char>| #[trigger] book.keys.contains_key(k) ==> !is_junk(packet, k, at.window),
        book.keys.contains_key(key),
        forall|k: Seq<char>| #[trigger]
            book.keys.contains_key(k) ==> (finds_client(d, packet, k, at.unix) == (k == key)),
        d.peers.dom().len() < MAX_SESSIONS,
        !book.connected(key, at.unix).stats[key].over(),
    ensures
        has_client(after, verdict, packet, key, at),
        book_after == book.connected(key, at.unix),
{
    let (mid, found) = choose|mid: Dispatch, found: Option<u32>| #[trigger]
        d.locates(at.peer, packet, at.now.nanos as int, mid, found) && match found {
            Some(id) => mid.serves(book, id, packet, at, after, book_after, verdict),
            None => mid.knocks(base, book, packet, at, after, book_after, verdict),
        };
    assert(found is None);
    let a = Dispatch { trials: mid.trials.taken(at.now.nanos as int).0, ..mid };
    let (order, attempts) = choose|order: Seq<Seq<char>>, attempts: Seq<Attempt>|
        order.to_set() == book.keys.dom() && order.no_duplicates() && attempts.len() == order.len() && #[trigger] a.tries(
            base,
            book,
            order,
            attempts,
            packet,
            at,
            after,
            book_after,
            verdict,
        );
    assert(order.to_set().contains(key));
    assert forall|i: int| 0 <= i < order.len() implies !is_junk(packet, #[trigger] order[i], at.window) by {
        assert(order.to_set().contains(order[i]));
        assert(book.keys.contains_key(order[i]));
    }
    assert forall|i: int| 0 <= i < order.len() implies (finds_client(a, packet, #[trigger] order[i], at.unix) == (
    order[i] == key)) by {
        assert(order.to_set().contains(order[i]));
        assert(book.keys.contains_key(order[i]));
    }
    lemma_let_in(a, base, book, order, attempts, packet, at, after, book_after, verdict, key);
}

} // verus!
