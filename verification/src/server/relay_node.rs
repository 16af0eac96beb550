//! A relay node: a pipe from its clients to one fixed server.
//!
//! It makes no decisions about who may pass; the server behind it does. What it
//! needs is protection against being used up: a cap on sessions and a limit on
//! how fast new ones come.

use vstd::prelude::*;

use crate::congestion::less;
use crate::net::{IpAddr, SocketAddr};
use crate::server::bucket::{Bucket, Tokens};
use crate::table::Table;
use crate::time::{Clock, Instant};

verus! {

/// Most sessions of datagrams at a time; each holds a socket.
pub const MAX_UDP_SESSIONS: usize = 4096;

/// Nanoseconds without traffic after which a session is reclaimed.
pub const UDP_SESSION_IDLE_NANOS: u64 = 120_000_000_000;

/// Most relayed connections at a time.
pub const MAX_TCP_CONNECTIONS: usize = 4096;

/// New sessions per second, and in one burst. Sessions that exist are never
/// limited.
pub const NEW_SESSION_RATE: u32 = 200;

/// Nanoseconds to wait for the server to accept a connection.
pub const UPSTREAM_CONNECT_TIMEOUT_NANOS: u64 = 8_000_000_000;

/// Where a relay node listens, and where it forwards to.
#[derive(Debug, Clone)]
pub struct RelayConfig {
    pub listen_addrs: Vec<String>,
    /// Where connections go.
    pub upstream_tcp: String,
    /// Where datagrams go.
    pub upstream_udp: String,
}

/// Bounds how fast new sessions are created.
pub struct AdmissionLimiter {
    bucket: Bucket,
    clock: Clock,
}

impl View for AdmissionLimiter {
    type V = Tokens;

    closed spec fn view(&self) -> Tokens {
        self.bucket@
    }
}

impl AdmissionLimiter {
    pub fn new() -> (r: Self)
        ensures
            exists|now: int| r@ == #[trigger] Tokens::full(NEW_SESSION_RATE as int, now),
    {
        let clock = Clock::start();
        let now = clock.now();
        let r = Self::new_at(clock, now);
        assert(r@ == Tokens::full(NEW_SESSION_RATE as int, now.nanos as int));
        r
    }

    pub fn new_at(clock: Clock, now: Instant) -> (r: Self)
        ensures
            r@ == Tokens::full(NEW_SESSION_RATE as int, now.nanos as int),
    {
        AdmissionLimiter { bucket: Bucket::new(NEW_SESSION_RATE, now), clock }
    }

    /// Takes a slot for a new session; false where there is none.
    pub fn try_admit(&mut self) -> (r: bool)
        ensures
            exists|now: int| (final(self)@, r) == #[trigger] old(self)@.taken(now),
    {
        let now = self.clock.now();
        let r = self.try_admit_at(now);
        assert((self@, r) == old(self)@.taken(now.nanos as int));
        r
    }

    /// Takes a slot for a new session at `now`.
    pub fn try_admit_at(&mut self, now: Instant) -> (r: bool)
        ensures
            (final(self)@, r) == old(self)@.taken(now.nanos as int),
    {
        self.bucket.take(now)
    }
}

/// The sessions of a relay: when each was last heard of.
#[verifier::ext_equal]
pub struct Flows {
    pub sessions: Map<SocketAddr, Instant>,
    pub tokens: Tokens,
}

/// What is done with a datagram of a client.
#[derive(Debug, Clone, Copy, PartialEq, Eq, Structural)]
pub enum RelayStep {
    /// It is forwarded over the session that there is.
    Forward,
    /// A session is opened, and the datagram is the first one over it.
    Open,
    Drop,
}

impl Flows {
    pub open spec fn idle(last: Instant, now: Instant) -> bool {
        less(now.nanos as int, last.nanos as int) >= UDP_SESSION_IDLE_NANOS
    }

    /// A client sends a datagram.
    pub open spec fn heard(self, peer: SocketAddr, now: Instant) -> (Flows, RelayStep) {
        if self.sessions.contains_key(peer) {
            (Flows { sessions: self.sessions.insert(peer, now), ..self }, RelayStep::Forward)
        } else if self.sessions.dom().len() >= MAX_UDP_SESSIONS {
            (self, RelayStep::Drop)
        } else {
            let (tokens, granted) = self.tokens.taken(now.nanos as int);
            (
                Flows { tokens, ..self },
                if granted {
                    RelayStep::Open
                } else {
                    RelayStep::Drop
                },
            )
        }
    }

    /// Without the sessions that were idle for too long.
    pub open spec fn reclaimed(self, now: Instant) -> Flows {
        Flows {
            sessions: self.sessions.restrict(
                Set::new(|p: SocketAddr| self.sessions.contains_key(p) && !Flows::idle(self.sessions[p], now)),
            ),
            ..self
        }
    }
}

/// The sessions of a relay.
pub struct UdpRelay {
    sessions: Table<SocketAddr, Instant>,
    limiter: AdmissionLimiter,
}

impl View for UdpRelay {
    type V = Flows;

    closed spec fn view(&self) -> Flows {
        Flows { sessions: self.sessions@, tokens: self.limiter@ }
    }
}

impl UdpRelay {
    pub closed spec fn wf(&self) -> bool {
        self.sessions.wf()
    }

    pub fn new(clock: Clock, now: Instant) -> (r: Self)
        ensures
            r.wf(),
            r@ == (Flows {
                sessions: Map::empty(),
                tokens: Tokens::full(NEW_SESSION_RATE as int, now.nanos as int),
            }),
    {
        UdpRelay { sessions: Table::new(), limiter: AdmissionLimiter::new_at(clock, now) }
    }

    /// How many sessions there are.
    pub fn len(&self) -> (r: usize)
        requires
            self.wf(),
        ensures
            r == self@.sessions.dom().len(),
    {
        self.sessions.len()
    }

    /// Whether a client has a session.
    pub fn knows(&self, peer: SocketAddr) -> (r: bool)
        requires
            self.wf(),
        ensures
            r == self@.sessions.contains_key(peer),
    {
        self.sessions.contains_key(&peer)
    }

    /// A client sends a datagram.
    pub fn on_datagram(&mut self, peer: SocketAddr, now: Instant) -> (r: RelayStep)
        requires
            old(self).wf(),
        ensures
            final(self).wf(),
            (final(self)@, r) == old(self)@.heard(peer, now),
    {
        if self.sessions.contains_key(&peer) {
            let _ = self.sessions.insert(peer, now);
            return RelayStep::Forward;
        }
        if self.sessions.len() >= MAX_UDP_SESSIONS {
            return RelayStep::Drop;
        }
        if self.limiter.try_admit_at(now) {
            RelayStep::Open
        } else {
            RelayStep::Drop
        }
    }

    /// The session of a client is open.
    pub fn on_opened(&mut self, peer: SocketAddr, now: Instant)
        requires
            old(self).wf(),
        ensures
            final(self).wf(),
            final(self)@ == (Flows { sessions: old(self)@.sessions.insert(peer, now), ..old(self)@ }),
    {
        let _ = self.sessions.insert(peer, now);
    }

    /// The server answered a client.
    pub fn on_reply(&mut self, peer: SocketAddr, now: Instant)
        requires
            old(self).wf(),
        ensures
            final(self).wf(),
            final(self)@ == if old(self)@.sessions.contains_key(peer) {
                Flows { sessions: old(self)@.sessions.insert(peer, now), ..old(self)@ }
            } else {
                old(self)@
            },
    {
        if self.sessions.contains_key(&peer) {
            let _ = self.sessions.insert(peer, now);
        }
    }

    /// The session of a client has ended.
    pub fn on_closed(&mut self, peer: SocketAddr)
        requires
            old(self).wf(),
        ensures
            final(self).wf(),
            final(self)@ == (Flows { sessions: old(self)@.sessions.remove(peer), ..old(self)@ }),
    {
        let _ = self.sessions.remove(&peer);
    }

    /// Reclaims the sessions that were idle for too long, and says how many those
    /// were.
    pub fn reclaim(&mut self, now: Instant) -> (r: usize)
        requires
            old(self).wf(),
        ensures
            final(self).wf(),
            final(self)@ == old(self)@.reclaimed(now),
            r == old(self)@.sessions.dom().len() - final(self)@.sessions.dom().len(),
    {
        let mut all: Table<SocketAddr, Instant> = Table::new();
        std::mem::swap(&mut all, &mut self.sessions);
        let ghost source = all@;
        let before: usize = all.len();
        let mut kept: Table<SocketAddr, Instant> = Table::new();
        while all.len() > 0
            invariant
                all.wf(),
                kept.wf(),
                kept.pairs().len() + all.pairs().len() <= before,
                forall|p: SocketAddr| #[trigger]
                    all@.contains_key(p) ==> source.contains_key(p) && all@[p] == source[p],
                forall|p: SocketAddr| #[trigger]
                    kept@.contains_key(p) <==> source.contains_key(p) && !all@.contains_key(p) && !Flows::idle(
                        source[p],
                        now,
                    ),
                forall|p: SocketAddr| #[trigger] kept@.contains_key(p) ==> kept@[p] == source[p],
            decreases all.pairs().len(),
        {
            let ghost was = all@;
            let (k, v) = all.pop().unwrap();
            assert(was.contains_key(k));
            if now.duration_since(v).nanos < UDP_SESSION_IDLE_NANOS {
                kept.push_new(k, v);
            }
        }
        proof {
            crate::table::lemma_map_of(all.pairs());
            crate::table::lemma_table_view(all);
            assert forall|p: SocketAddr| !all@.contains_key(p) by {}
            assert(kept@ =~= source.restrict(
                Set::new(|p: SocketAddr| source.contains_key(p) && !Flows::idle(source[p], now)),
            ));
        }
        let after: usize = kept.len();
        self.sessions = kept;
        before - after
    }
}

/// The relayed connections that there are.
#[derive(Debug, Clone, Copy, PartialEq, Eq, Structural)]
pub struct TcpRelay {
    pub live: usize,
}

impl TcpRelay {
    pub fn new() -> (r: Self)
        ensures
            r.live == 0,
    {
        TcpRelay { live: 0 }
    }

    /// A client connects; false where it is closed at once.
    pub fn on_accept(&mut self) -> (r: bool)
        ensures
            r == (old(self).live < MAX_TCP_CONNECTIONS),
            final(self).live == if r {
                old(self).live + 1
            } else {
                old(self).live as int
            },
    {
        if self.live >= MAX_TCP_CONNECTIONS {
            return false;
        }
        self.live = self.live + 1;
        true
    }

    /// A relayed connection has ended.
    pub fn on_closed(&mut self)
        requires
            old(self).live > 0,
        ensures
            final(self).live == old(self).live - 1,
    {
        self.live = self.live - 1;
    }
}

/// Where a socket towards `upstream` is bound: any port of the same family.
pub fn upstream_bind(upstream: SocketAddr) -> (r: SocketAddr)
    ensures
        r == (SocketAddr {
            ip: match upstream.ip {
                IpAddr::V4(_) => IpAddr::V4(0),
                IpAddr::V6(_) => IpAddr::V6(0),
            },
            port: 0,
            scope_id: 0,
        }),
{
    let ip = match upstream.ip {
        IpAddr::V4(_) => IpAddr::V4(0),
        IpAddr::V6(_) => IpAddr::V6(0),
    };
    SocketAddr { ip, port: 0, scope_id: 0 }
}

// ── Laws ─────────────────────────────────────────────────────────────────────

/// A session that exists is never limited: whatever comes from its client is
/// forwarded.
pub proof fn known_clients_are_forwarded(f: Flows, peer: SocketAddr, now: Instant)
    requires
        f.sessions.contains_key(peer),
    ensures
        f.heard(peer, now).1 == RelayStep::Forward,
        f.heard(peer, now).0.tokens == f.tokens,
{
}

/// Sessions stay within their cap: where one is opened there is room for it.
pub proof fn sessions_stay_within_the_cap(f: Flows, peer: SocketAddr, now: Instant)
    requires
        f.sessions.dom().finite(),
        f.sessions.dom().len() <= MAX_UDP_SESSIONS,
    ensures
        f.heard(peer, now).0.sessions.dom().len() <= MAX_UDP_SESSIONS,
        f.heard(peer, now).1 == RelayStep::Open ==> f.heard(peer, now).0.sessions.insert(peer, now).dom().len()
            <= MAX_UDP_SESSIONS,
{
    if f.sessions.contains_key(peer) {
        assert(f.sessions.insert(peer, now).dom() =~= f.sessions.dom());
    } else {
        assert(f.sessions.insert(peer, now).dom() =~= f.sessions.dom().insert(peer));
    }
}

/// New sessions in one burst are bounded: a slot that is granted at the same
/// instant costs a token, and an empty bucket grants none.
pub proof fn bursts_are_bounded(f: Flows, peer: SocketAddr, now: Instant)
    requires
        f.tokens.last == now.nanos,
        f.tokens.rate >= 0,
        0 <= f.tokens.level <= f.tokens.rate * crate::server::bucket::TOKEN,
    ensures
        f.heard(peer, now).1 == RelayStep::Open ==> f.tokens.level >= crate::server::bucket::TOKEN && f.heard(
            peer,
            now,
        ).0.tokens.level == f.tokens.level - crate::server::bucket::TOKEN,
{
    assert(0 * f.tokens.rate == 0);
}

/// A new client gets a session while there are fewer than 4096 and a token is left; one that is
/// known is forwarded, and its silence begins anew. Nothing of any other client changes.
pub proof fn new_clients_get_sessions(f: Flows, peer: SocketAddr, now: Instant)
    ensures
        ({
            let (after, step) = f.heard(peer, now);
            &&& f.sessions.contains_key(peer) ==> step is Forward && after.sessions.contains_key(peer)
                && after.sessions[peer] == now
            &&& !f.sessions.contains_key(peer) && f.sessions.dom().len() < 4096 ==> (step is Open <==> f.tokens.taken(
                now.nanos as int,
            ).1) && !(step is Forward)
            &&& !f.sessions.contains_key(peer) && f.sessions.dom().len() >= 4096 ==> step is Drop
            &&& forall|other: SocketAddr| other != peer ==> (#[trigger] after.sessions.contains_key(other)
                <==> f.sessions.contains_key(other)) && (f.sessions.contains_key(other) ==> after.sessions[other]
                == f.sessions[other])
        }),
{
}

/// A session is given up once it was silent for two minutes, and not before.
pub proof fn idle_sessions_are_reclaimed(f: Flows, peer: SocketAddr, now: Instant)
    requires
        f.sessions.contains_key(peer),
        f.sessions[peer].nanos <= now.nanos,
    ensures
        f.reclaimed(now).sessions.contains_key(peer) <==> now.nanos - f.sessions[peer].nanos < 120_000_000_000,
        f.reclaimed(now).sessions.contains_key(peer) ==> f.reclaimed(now).sessions[peer] == f.sessions[peer],
        f.reclaimed(now).tokens == f.tokens,
{
}

} // verus!
