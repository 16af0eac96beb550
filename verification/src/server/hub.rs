//! What the server loop does with each datagram, reply and tick: what goes out
//! and over what, and what is noticed of its clients.

use vstd::prelude::*;

use crate::congestion::less;
use crate::net::{IpAddr, SocketAddr};
use crate::protocol::session::Fault;
use crate::protocol::ProtocolError;
use crate::relay::RelayMessage;
use crate::server::dispatcher::{byte_seqs, payload_seqs, sent_view, DispatchOutcome, Dispatcher, Verdict};
use crate::server::streams::StreamId;
use crate::server::users::{UserMeta, Users};
use crate::table::Table;
use crate::text::{decimal, joined, owned, decimal_string};
use crate::time::Instant;

verus! {

/// A client that was silent for this long is taken to be gone: 45 seconds.
pub const PEER_TIMEOUT_NANOS: u64 = 45_000_000_000;

/// Datagrams without data are noticed at most this often: every five seconds.
pub const EMPTY_NOTICE_NANOS: u64 = 5_000_000_000;

/// Something that an operator may want to know.
#[derive(Clone, Copy, Debug, PartialEq, Eq, Structural)]
pub enum Notice {
    UnauthorizedProbe { peer: IpAddr, bytes: usize },
    Connected { peer: IpAddr, tcp: bool },
    Disconnected { peer: IpAddr },
    NoPayloads { peer: IpAddr, responses: usize },
    Rx { peer: IpAddr, bytes: usize },
    Tx { peer: IpAddr, bytes: usize },
}

/// What the server loop is to do.
pub enum ServerAction {
    /// Put a datagram on the wire: over the TCP connection of the address where
    /// it has one, over UDP otherwise.
    Send { datagram: Vec<u8>, addr: SocketAddr, tcp: bool },
    Tell(Notice),
}

/// What the server loop is to do.
#[verifier::ext_equal]
pub enum Move {
    Send { datagram: Seq<u8>, addr: SocketAddr, tcp: bool },
    Tell(Notice),
}

impl View for ServerAction {
    type V = Move;

    open spec fn view(&self) -> Move {
        match self {
            ServerAction::Send { datagram, addr, tcp } => Move::Send { datagram: datagram@, addr: *addr, tcp: *tcp },
            ServerAction::Tell(n) => Move::Tell(*n),
        }
    }
}

pub open spec fn moves(v: Seq<ServerAction>) -> Seq<Move> {
    Seq::new(v.len(), |i: int| v[i]@)
}

/// What is known of the clients: when each was last heard of and whether it is
/// taken to be there; which addresses have a TCP connection; and when datagrams
/// without data were last noticed.
#[verifier::ext_equal]
pub struct Clients {
    pub last_seen: Map<IpAddr, Instant>,
    pub available: Map<IpAddr, bool>,
    pub links: Map<SocketAddr, ()>,
    pub last_empty: Instant,
}

impl Clients {
    pub open spec fn is_available(self, ip: IpAddr) -> bool {
        self.available.contains_key(ip) && self.available[ip]
    }

    /// A client was heard of.
    pub open spec fn heard(self, ip: IpAddr, now: Instant) -> Clients {
        Clients {
            last_seen: self.last_seen.insert(ip, now),
            available: if self.is_available(ip) {
                self.available
            } else {
                self.available.insert(ip, true)
            },
            ..self
        }
    }

    /// Whether a client is now to be taken as gone.
    pub open spec fn lost(self, ip: IpAddr, now: Instant) -> bool {
        self.last_seen.contains_key(ip) && self.is_available(ip) && less(
            now.nanos as int,
            self.last_seen[ip].nanos as int,
        ) > PEER_TIMEOUT_NANOS
    }

    pub open spec fn sending(self, datagram: Seq<u8>, addr: SocketAddr) -> Move {
        Move::Send { datagram, addr, tcp: self.links.contains_key(addr) }
    }

    /// The answers to a datagram, each with a notice.
    pub open spec fn answers(self, responses: Seq<Seq<u8>>, addr: SocketAddr) -> Seq<Move>
        decreases responses.len(),
    {
        if responses.len() == 0 {
            Seq::empty()
        } else {
            self.answers(responses.drop_last(), addr) + seq![
                self.sending(responses.last(), addr),
                Move::Tell(Notice::Tx { peer: addr.ip, bytes: responses.last().len() as usize }),
            ]
        }
    }

    /// What a verdict over a datagram of `size` bytes from `from` leads to.
    pub open spec fn judged(self, verdict: Verdict, from: SocketAddr, size: usize, now: Instant) -> (Clients, Seq<Move>) {
        match verdict {
            Verdict::Unauthorized => (
                self,
                seq![Move::Tell(Notice::UnauthorizedProbe { peer: from.ip, bytes: size })],
            ),
            Verdict::Junk => (self, Seq::empty()),
            Verdict::Accepted { responses, payloads, addr } => {
                let quiet = payloads.len() == 0 && less(now.nanos as int, self.last_empty.nanos as int)
                    > EMPTY_NOTICE_NANOS;
                let after = Clients {
                    last_empty: if quiet {
                        now
                    } else {
                        self.last_empty
                    },
                    ..self.heard(addr.ip, now)
                };
                let first = if self.is_available(addr.ip) {
                    Seq::empty()
                } else {
                    seq![Move::Tell(Notice::Connected { peer: addr.ip, tcp: self.links.contains_key(addr) })]
                };
                let second = if quiet {
                    seq![Move::Tell(Notice::NoPayloads { peer: addr.ip, responses: responses.len() as usize })]
                } else {
                    Seq::empty()
                };
                (
                    after,
                    first + second + seq![Move::Tell(Notice::Rx { peer: addr.ip, bytes: size })] + self.answers(
                        responses,
                        addr,
                    ),
                )
            },
        }
    }
}

/// What is known of the clients.
pub struct Hub {
    last_seen: Table<IpAddr, Instant>,
    available: Table<IpAddr, bool>,
    links: Table<SocketAddr, ()>,
    last_empty: Instant,
}

impl View for Hub {
    type V = Clients;

    closed spec fn view(&self) -> Clients {
        Clients {
            last_seen: self.last_seen@,
            available: self.available@,
            links: self.links@,
            last_empty: self.last_empty,
        }
    }
}

impl Hub {
    pub closed spec fn wf(&self) -> bool {
        self.last_seen.wf() && self.available.wf() && self.links.wf()
    }

    /// No clients; a datagram without data is noticed at once.
    pub fn new(now: Instant) -> (r: Self)
        ensures
            r.wf(),
            r@ == (Clients {
                last_seen: Map::empty(),
                available: Map::empty(),
                links: Map::empty(),
                last_empty: Instant { nanos: less(now.nanos as int, 10_000_000_000) as u64 },
            }),
    {
        Hub {
            last_seen: Table::new(),
            available: Table::new(),
            links: Table::new(),
            last_empty: Instant { nanos: now.nanos.saturating_sub(10_000_000_000) },
        }
    }

    /// An address has a TCP connection.
    pub fn link_up(&mut self, addr: SocketAddr)
        requires
            old(self).wf(),
        ensures
            final(self).wf(),
            final(self)@ == (Clients { links: old(self)@.links.insert(addr, ()), ..old(self)@ }),
    {
        let _ = self.links.insert(addr, ());
        assert(self@ =~= (Clients { links: old(self)@.links.insert(addr, ()), ..old(self)@ }));
    }

    /// An address has no TCP connection any more.
    pub fn link_down(&mut self, addr: SocketAddr)
        requires
            old(self).wf(),
        ensures
            final(self).wf(),
            final(self)@ == (Clients { links: old(self)@.links.remove(addr), ..old(self)@ }),
    {
        let _ = self.links.remove(&addr);
        assert(self@ =~= (Clients { links: old(self)@.links.remove(addr), ..old(self)@ }));
    }

    /// How a datagram goes out.
    pub fn send(&self, datagram: Vec<u8>, addr: SocketAddr) -> (r: ServerAction)
        requires
            self.wf(),
        ensures
            r@ == self@.sending(datagram@, addr),
    {
        ServerAction::Send { datagram, addr, tcp: self.links.contains_key(&addr) }
    }

    /// What to do after the dispatcher judged a datagram of `size` bytes, and the
    /// data to relay.
    pub fn on_outcome(&mut self, outcome: DispatchOutcome, from: SocketAddr, size: usize, now: Instant) -> (r: (
        Vec<ServerAction>,
        Vec<(u32, u16, Vec<u8>)>,
    ))
        requires
            old(self).wf(),
        ensures
            final(self).wf(),
            (final(self)@, moves(r.0@)) == old(self)@.judged(outcome@, from, size, now),
            payload_seqs(r.1@) == match outcome@ {
                Verdict::Accepted { responses, payloads, addr } => payloads,
                _ => Seq::empty(),
            },
    {
        let mut out: Vec<ServerAction> = Vec::new();
        let ghost start = self@;
        assert(moves(out@) =~= Seq::<Move>::empty());
        match outcome {
            DispatchOutcome::Unauthorized => {
                out.push(ServerAction::Tell(Notice::UnauthorizedProbe { peer: from.ip, bytes: size }));
                assert(moves(out@) =~= start.judged(outcome@, from, size, now).1);
                let none: Vec<(u32, u16, Vec<u8>)> = Vec::new();
                assert(payload_seqs(none@) =~= Seq::<(u32, u16, Seq<u8>)>::empty());
                (out, none)
            },
            DispatchOutcome::Junk => {
                let none: Vec<(u32, u16, Vec<u8>)> = Vec::new();
                assert(payload_seqs(none@) =~= Seq::<(u32, u16, Seq<u8>)>::empty());
                (out, none)
            },
            DispatchOutcome::Accepted { responses, app_payloads, peer_addr } => {
                let ip = peer_addr.ip;
                let tcp = self.links.contains_key(&peer_addr);
                let known = match self.available.get(&ip) {
                    Some(b) => *b,
                    None => false,
                };
                let _ = self.last_seen.insert(ip, now);
                if !known {
                    let _ = self.available.insert(ip, true);
                    out.push(ServerAction::Tell(Notice::Connected { peer: ip, tcp }));
                }
                assert(self@ =~= start.heard(ip, now));
                let ghost first: Seq<Move> = if start.is_available(ip) {
                    Seq::empty()
                } else {
                    seq![Move::Tell(Notice::Connected { peer: ip, tcp })]
                };
                assert(moves(out@) =~= first);
                let quiet = app_payloads.len() == 0 && now.duration_since(self.last_empty).nanos > EMPTY_NOTICE_NANOS;
                if quiet {
                    self.last_empty = now;
                    out.push(ServerAction::Tell(Notice::NoPayloads { peer: ip, responses: responses.len() }));
                }
                let ghost second: Seq<Move> = if quiet {
                    seq![Move::Tell(Notice::NoPayloads { peer: ip, responses: responses@.len() as usize })]
                } else {
                    Seq::empty()
                };
                assert(moves(out@) =~= first + second);
                out.push(ServerAction::Tell(Notice::Rx { peer: ip, bytes: size }));
                let ghost head = first + second + seq![Move::Tell(Notice::Rx { peer: ip, bytes: size })];
                assert(moves(out@) =~= head);
                let ghost sent = byte_seqs(responses@);
                let mut i: usize = 0;
                assert(head + start.answers(sent.subrange(0, 0), peer_addr) =~= head);
                while i < responses.len()
                    invariant
                        self.wf(),
                        self@.links == start.links,
                        tcp == start.links.contains_key(peer_addr),
                        sent == byte_seqs(responses@),
                        ip == peer_addr.ip,
                        i <= responses@.len(),
                        moves(out@) == head + start.answers(sent.subrange(0, i as int), peer_addr),
                    decreases responses@.len() - i,
                {
                    let ghost before = moves(out@);
                    let ghost t = sent.subrange(0, i + 1);
                    assert(t.drop_last() =~= sent.subrange(0, i as int));
                    assert(t.last() == responses@[i as int]@);
                    let d = crate::bytes::copy_of(&responses[i]);
                    let bytes: usize = d.len();
                    out.push(ServerAction::Send { datagram: d, addr: peer_addr, tcp });
                    out.push(ServerAction::Tell(Notice::Tx { peer: ip, bytes }));
                    assert(moves(out@) =~= before + seq![
                        start.sending(t.last(), peer_addr),
                        Move::Tell(Notice::Tx { peer: ip, bytes }),
                    ]);
                    assert(moves(out@) =~= head + start.answers(t, peer_addr));
                    i += 1;
                }
                assert(sent.subrange(0, i as int) =~= sent);
                assert(self@ =~= start.judged(outcome@, from, size, now).0);
                (out, app_payloads)
            },
        }
    }

    /// The clients that are now taken to be gone.
    pub fn on_tick(&mut self, now: Instant) -> (r: Vec<IpAddr>)
        requires
            old(self).wf(),
        ensures
            final(self).wf(),
            r@.no_duplicates(),
            forall|ip: IpAddr| #[trigger] r@.contains(ip) <==> old(self)@.lost(ip, now),
            final(self)@ == (Clients { available: final(self)@.available, ..old(self)@ }),
            forall|ip: IpAddr| #[trigger]
                final(self)@.is_available(ip) <==> old(self)@.is_available(ip) && !old(self)@.lost(ip, now),
    {
        let ghost start = self@;
        let mut out: Vec<IpAddr> = Vec::new();
        let n: usize = self.last_seen.len();
        let mut i: usize = 0;
        let ghost pairs = self.last_seen.pairs();
        proof {
            crate::table::lemma_map_of(pairs);
            crate::table::lemma_table_view(self.last_seen);
        }
        while i < n
            invariant
                self.wf(),
                pairs == self.last_seen.pairs(),
                n == pairs.len(),
                i <= n,
                self@.last_seen == start.last_seen,
                self@.links == start.links,
                self@.last_empty == start.last_empty,
                start.last_seen == crate::table::map_of(pairs),
                forall|k: int|
                    0 <= k < n ==> start.last_seen.contains_key((#[trigger] pairs[k]).0)
                        && start.last_seen[pairs[k].0] == pairs[k].1,
                crate::table::distinct(pairs),
                out@.no_duplicates(),
                forall|ip: IpAddr| #[trigger]
                    out@.contains(ip) <==> start.lost(ip, now) && exists|j: int|
                        0 <= j < i && (#[trigger] pairs[j]).0 == ip,
                forall|ip: IpAddr| #[trigger]
                    self@.is_available(ip) <==> start.is_available(ip) && !out@.contains(ip),
            decreases n - i,
        {
            let ip: IpAddr = *self.last_seen.key_at(i);
            let seen: Instant = *self.last_seen.value_at(i);
            let known = match self.available.get(&ip) {
                Some(b) => *b,
                None => false,
            };
            let ghost before = self@;
            let ghost out0 = out@;
            assert(ip == pairs[i as int].0);
            assert(!out0.contains(ip)) by {
                if out0.contains(ip) {
                    let j = choose|j: int| 0 <= j < i && (#[trigger] pairs[j]).0 == ip;
                    assert(pairs[j].0 != pairs[i as int].0);
                }
            }
            assert(before.is_available(ip) == start.is_available(ip));
            if known && now.duration_since(seen).nanos > PEER_TIMEOUT_NANOS {
                let _ = self.available.insert(ip, false);
                out.push(ip);
                assert(out@ == out0.push(ip));
            }
            assert forall|x: IpAddr| #[trigger] out@.contains(x) <==> start.lost(x, now) && exists|j: int|
                0 <= j < i + 1 && (#[trigger] pairs[j]).0 == x by {
                if out0.contains(x) {
                    let m = choose|m: int| 0 <= m < out0.len() && out0[m] == x;
                    assert(out@[m] == x);
                    let j = choose|j: int| 0 <= j < i && (#[trigger] pairs[j]).0 == x;
                    assert(pairs[j].0 == x);
                }
                if x == ip {
                    assert(pairs[i as int].0 == x);
                    if start.lost(x, now) {
                        assert(out@[out@.len() - 1] == x);
                    }
                }
                if start.lost(x, now) && exists|j: int| 0 <= j < i + 1 && (#[trigger] pairs[j]).0 == x {
                    let j = choose|j: int| 0 <= j < i + 1 && (#[trigger] pairs[j]).0 == x;
                    if j < i {
                        assert(out0.contains(x));
                    }
                }
            }
            assert forall|x: IpAddr| #[trigger] self@.is_available(x) <==> start.is_available(x) && !out@.contains(
                x,
            ) by {
                if x != ip {
                    assert(self@.is_available(x) == before.is_available(x));
                    assert(out@.contains(x) == out0.contains(x)) by {
                        if out@.contains(x) {
                            let m = choose|m: int| 0 <= m < out@.len() && out@[m] == x;
                            if m < out0.len() {
                                assert(out0[m] == x);
                            }
                        }
                        if out0.contains(x) {
                            let m = choose|m: int| 0 <= m < out0.len() && out0[m] == x;
                            assert(out@[m] == x);
                        }
                    }
                }
            }
            i += 1;
        }
        proof {
            assert forall|ip: IpAddr| #[trigger] out@.contains(ip) <==> start.lost(ip, now) by {
                if start.lost(ip, now) {
                    assert(start.last_seen.contains_key(ip));
                    let j = choose|j: int| 0 <= j < pairs.len() && (#[trigger] pairs[j]).0 == ip;
                    assert(pairs[j].0 == ip);
                }
            }
            assert forall|ip: IpAddr| #[trigger] self@.is_available(ip) <==> start.is_available(ip) && !start.lost(
                ip,
                now,
            ) by {
                assert(out@.contains(ip) == start.lost(ip, now));
            }
            assert(self@ =~= (Clients { available: self@.available, ..start }));
        }
        out
    }

    /// Sends a message to the client of a stream. Nothing where its session is
    /// not there or not established.
    pub fn send_relay_to_stream(
        &self,
        id: StreamId,
        message: &RelayMessage,
        dispatcher: &mut Dispatcher,
        users: &mut Users,
        now: Instant,
        unix: u64,
    ) -> (r: Result<Option<ServerAction>, ProtocolError>)
        requires
            self.wf(),
            old(dispatcher).wf(),
            old(users).wf(),
        ensures
            final(dispatcher).wf(),
            final(users).wf(),
            final(dispatcher).config() == old(dispatcher).config(),
            exists|sent: Result<Option<(Seq<u8>, SocketAddr)>, Fault>| #[trigger]
                old(dispatcher)@.sends_out(
                    old(users)@,
                    id.session,
                    id.stream,
                    message@.bytes(),
                    now.nanos as int,
                    unix,
                    final(dispatcher)@,
                    final(users)@,
                    sent,
                ) && match r {
                    Ok(Some(a)) => sent matches Ok(Some((d, addr))) && a@ == self@.sending(d, addr),
                    Ok(None) => sent == Ok::<Option<(Seq<u8>, SocketAddr)>, Fault>(None),
                    Err(e) => sent == Err::<Option<(Seq<u8>, SocketAddr)>, Fault>(crate::protocol::machine::fault(e)),
                },
    {
        let ghost start = dispatcher@;
        let ghost book = users@;
        let done = dispatcher.outbound_to_session(id.session, id.stream, message.encode(), users, now, unix);
        assert(start.sends_out(
            book,
            id.session,
            id.stream,
            message@.bytes(),
            now.nanos as int,
            unix,
            dispatcher@,
            users@,
            sent_view(done),
        ));
        match done {
            Ok(Some((d, addr))) => Ok(Some(self.send(d, addr))),
            Ok(None) => Ok(None),
            Err(e) => Err(e),
        }
    }
}

/// The key that is made at a second of the Unix time.
pub open spec fn made_key(unix: u64) -> Seq<char> {
    "ostp_key_"@ + decimal(unix as nat)
}

/// Makes a key that may be used without limit.
pub fn create_client_key(users: &mut Users, unix: u64) -> (key: String)
    requires
        old(users).wf(),
    ensures
        final(users).wf(),
        key@ == made_key(unix),
        final(users)@.keys.dom() == old(users)@.keys.dom().insert(key@),
        final(users)@.keys[key@].name is None,
        final(users)@.keys[key@].limit_bytes is None,
        forall|k: Seq<char>| k != key@ && #[trigger]
            old(users)@.keys.contains_key(k) ==> final(users)@.keys[k] == old(users)@.keys[k],
        final(users)@.stats == old(users)@.stats,
{
    let key = joined("ostp_key_", &decimal_string(unix));
    let _ = users.keys.insert(owned(&key), UserMeta { name: None, limit_bytes: None });
    assert(users@.keys.dom() =~= old(users)@.keys.dom().insert(key@));
    key
}

/// A client that is heard of is available, and stays so for as long as it is
/// heard of in time.
pub proof fn heard_clients_are_available(s: Clients, ip: IpAddr, now: Instant, later: Instant)
    ensures
        s.heard(ip, now).is_available(ip),
        less(later.nanos as int, now.nanos as int) <= PEER_TIMEOUT_NANOS ==> !s.heard(ip, now).lost(ip, later),
{
}

/// A client that was heard is taken to be lost once it was silent for more than 45 seconds, and
/// not before; one that is lost is not lost again before it is heard.
pub proof fn silent_clients_are_lost(s: Clients, ip: IpAddr, now: Instant)
    requires
        s.last_seen.contains_key(ip),
        s.last_seen[ip].nanos <= now.nanos,
    ensures
        s.lost(ip, now) <==> s.available.contains_key(ip) && s.available[ip] && now.nanos - s.last_seen[ip].nanos
            > 45_000_000_000,
        s.heard(ip, now).last_seen.contains_key(ip) && s.heard(ip, now).last_seen[ip] == now,
        forall|other: IpAddr| other != ip ==> (#[trigger] s.heard(ip, now).last_seen.contains_key(other)
            <==> s.last_seen.contains_key(other)) && s.heard(ip, now).last_seen[other] == s.last_seen[other],
        forall|other: IpAddr| other != ip ==> (#[trigger] s.heard(ip, now).is_available(other)
            <==> s.is_available(other)),
        s.heard(ip, now).links == s.links,
{
}

proof fn lemma_answers(s: Clients, responses: Seq<Seq<u8>>, addr: SocketAddr, i: int)
    requires
        0 <= i < responses.len(),
    ensures
        s.answers(responses, addr).len() == 2 * responses.len(),
        s.answers(responses, addr)[2 * i] == s.sending(responses[i], addr),
    decreases responses.len(),
{
    let d = responses.drop_last();
    if i < responses.len() - 1 {
        lemma_answers(s, d, addr, i);
        assert(d[i] == responses[i]);
    } else if d.len() > 0 {
        lemma_answers(s, d, addr, 0);
    }
}

/// What a session answers goes out in its order to the session's address: over the TCP
/// connection of that address where it has one, over UDP otherwise. A datagram that is refused
/// or is junk gets no answer at all.
pub proof fn answers_go_out(
    s: Clients,
    responses: Seq<Seq<u8>>,
    payloads: Seq<(u32, u16, Seq<u8>)>,
    addr: SocketAddr,
    from: SocketAddr,
    size: usize,
    now: Instant,
    i: int,
)
    requires
        0 <= i < responses.len(),
    ensures
        ({
            let (after, out) = s.judged(Verdict::Accepted { responses, payloads, addr }, from, size, now);
            let at = out.len() - 2 * responses.len() + 2 * i;
            &&& 0 <= at < out.len()
            &&& out[at] == (Move::Send { datagram: responses[i], addr, tcp: s.links.contains_key(addr) })
            &&& after.is_available(addr.ip) && after.last_seen[addr.ip] == now
        }),
        ({
            let (after, out) = s.judged(Verdict::Unauthorized, from, size, now);
            after == s && forall|k: int| 0 <= k < out.len() ==> !((#[trigger] out[k]) is Send)
        }),
        s.judged(Verdict::Junk, from, size, now) == (s, Seq::<Move>::empty()),
{
    lemma_answers(s, responses, addr, i);
}

/// A key that is made is named by the time, so that keys of different times differ.
pub proof fn made_keys_are_named_by_time(a: u64, b: u64)
    ensures
        made_key(a) == "ostp_key_"@ + decimal(a as nat),
        made_key(a) == made_key(b) ==> a == b,
{
    let p = "ostp_key_"@;
    let n = p.len() as int;
    if made_key(a) == made_key(b) {
        assert(made_key(a).skip(n) =~= decimal(a as nat));
        assert(made_key(b).skip(n) =~= decimal(b as nat));
        crate::text::lemma_decimal_value(a as nat);
        crate::text::lemma_decimal_value(b as nat);
    }
}

} // verus!
