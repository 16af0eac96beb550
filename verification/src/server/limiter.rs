//! How many TCP connections one address may open.

use vstd::prelude::*;

use crate::congestion::less;
use crate::net::{IpAddr, SocketAddr};
use crate::table::Table;
use crate::time::{Clock, Instant};

verus! {

/// The window in which connections are counted: ten seconds.
pub const WINDOW_NANOS: u64 = 10_000_000_000;

/// Connections per window.
pub const MAX_CONNS: u32 = 10;

/// How often windows that are over are forgotten, so that a scan from many
/// addresses does not fill the memory.
pub const PRUNE_EVERY_NANOS: u64 = 60_000_000_000;

/// The state of a limiter: for each address how many connections its window
/// counts, and when it began.
#[verifier::ext_equal]
pub struct Windows {
    pub windows: Map<IpAddr, (u32, Instant)>,
    pub last_prune: Instant,
}

pub open spec fn over(w: (u32, Instant), now: Instant) -> bool {
    less(now.nanos as int, w.1.nanos as int) >= WINDOW_NANOS
}

impl Windows {
    /// Without the windows that are over, where it is time.
    pub open spec fn pruned(self, now: Instant) -> Windows {
        if less(now.nanos as int, self.last_prune.nanos as int) >= PRUNE_EVERY_NANOS {
            Windows {
                windows: self.windows.restrict(
                    Set::new(|ip: IpAddr| self.windows.contains_key(ip) && !over(self.windows[ip], now)),
                ),
                last_prune: now,
            }
        } else {
            self
        }
    }

    /// One more connection from `ip`: the state after it, and whether it is
    /// allowed.
    pub open spec fn counted(self, ip: IpAddr, now: Instant) -> (Windows, bool) {
        let p = self.pruned(now);
        let w = if p.windows.contains_key(ip) {
            p.windows[ip]
        } else {
            (0u32, now)
        };
        let next = if over(w, now) {
            (1u32, now)
        } else if w.0 == u32::MAX {
            w
        } else {
            ((w.0 + 1) as u32, w.1)
        };
        (Windows { windows: p.windows.insert(ip, next), ..p }, over(w, now) || next.0 <= MAX_CONNS)
    }
}

/// Limits connections per address.
pub struct ConnLimiter {
    windows: Table<IpAddr, (u32, Instant)>,
    last_prune: Instant,
    clock: Clock,
}

impl View for ConnLimiter {
    type V = Windows;

    closed spec fn view(&self) -> Windows {
        Windows { windows: self.windows@, last_prune: self.last_prune }
    }
}

impl ConnLimiter {
    pub closed spec fn wf(&self) -> bool {
        self.windows.wf()
    }

    pub fn new() -> (r: Self)
        ensures
            r.wf(),
            r@.windows == Map::<IpAddr, (u32, Instant)>::empty(),
    {
        let clock = Clock::start();
        Self::new_at(clock, clock.now())
    }

    pub fn new_at(clock: Clock, now: Instant) -> (r: Self)
        ensures
            r.wf(),
            r@ == (Windows { windows: Map::empty(), last_prune: now }),
    {
        ConnLimiter { windows: Table::new(), last_prune: now, clock }
    }

    /// Counts a connection from `ip`; false once it exceeds what its window
    /// allows. An IPv6 address that stands for an IPv4 address counts as that.
    pub fn check(&mut self, ip: IpAddr) -> (r: bool)
        requires
            old(self).wf(),
        ensures
            final(self).wf(),
            exists|now: Instant| (final(self)@, r) == #[trigger] old(self)@.counted(ip.canonical(), now),
    {
        let now = self.clock.now();
        self.check_at(ip.to_canonical(), now)
    }

    /// Counts a connection from `ip` at `now`.
    pub fn check_at(&mut self, ip: IpAddr, now: Instant) -> (r: bool)
        requires
            old(self).wf(),
        ensures
            final(self).wf(),
            (final(self)@, r) == old(self)@.counted(ip, now),
    {
        if now.duration_since(self.last_prune).nanos >= PRUNE_EVERY_NANOS {
            self.prune(now);
        }
        assert(self@ == old(self)@.pruned(now));
        let ghost p = self@;
        let w = match self.windows.get(&ip) {
            Some(w) => *w,
            None => (0u32, now),
        };
        let fresh = now.duration_since(w.1).nanos >= WINDOW_NANOS;
        let next: (u32, Instant) = if fresh {
            (1, now)
        } else {
            (w.0.saturating_add(1), w.1)
        };
        let _ = self.windows.insert(ip, next);
        assert(self@ =~= (Windows { windows: p.windows.insert(ip, next), ..p }));
        fresh || next.0 <= MAX_CONNS
    }

    /// How many addresses are counted.
    pub fn len(&self) -> (r: usize)
        requires
            self.wf(),
        ensures
            r == self@.windows.dom().len(),
    {
        self.windows.len()
    }

    fn prune(&mut self, now: Instant)
        requires
            old(self).wf(),
            less(now.nanos as int, old(self)@.last_prune.nanos as int) >= PRUNE_EVERY_NANOS,
        ensures
            final(self).wf(),
            final(self)@ == old(self)@.pruned(now),
    {
        let mut all: Table<IpAddr, (u32, Instant)> = Table::new();
        std::mem::swap(&mut all, &mut self.windows);
        let ghost source = all@;
        let mut kept: Table<IpAddr, (u32, Instant)> = Table::new();
        while all.len() > 0
            invariant
                all.wf(),
                kept.wf(),
                forall|p: IpAddr| #[trigger]
                    all@.contains_key(p) ==> source.contains_key(p) && all@[p] == source[p],
                forall|p: IpAddr| #[trigger]
                    kept@.contains_key(p) <==> source.contains_key(p) && !all@.contains_key(p) && !over(source[p], now),
                forall|p: IpAddr| #[trigger] kept@.contains_key(p) ==> kept@[p] == source[p],
            decreases all.pairs().len(),
        {
            let ghost before = all@;
            let (k, v) = all.pop().unwrap();
            assert(before.contains_key(k));
            if now.duration_since(v.1).nanos < WINDOW_NANOS {
                kept.push_new(k, v);
            }
        }
        proof {
            crate::table::lemma_map_of(all.pairs());
            crate::table::lemma_table_view(all);
            assert forall|p: IpAddr| !all@.contains_key(p) by {}
            assert(kept@ =~= source.restrict(
                Set::new(|ip: IpAddr| source.contains_key(ip) && !over(source[ip], now)),
            ));
        }
        self.windows = kept;
        self.last_prune = now;
    }
}

/// Connections from this host come from a web server in front: their clients are
/// limited by the address that it forwards instead.
pub fn is_trusted_proxy(peer: SocketAddr) -> (r: bool)
    ensures
        r == peer.ip.canonical().loopback(),
{
    peer.ip.to_canonical().is_loopback()
}

/// Within one window an address gets its connections, and no more: the first ones
/// are allowed, every later one is refused.
pub proof fn a_window_allows_its_connections(s: Windows, ip: IpAddr, now: Instant)
    requires
        s.pruned(now).windows.contains_key(ip),
        !over(s.pruned(now).windows[ip], now),
    ensures
        s.counted(ip, now).1 <==> s.pruned(now).windows[ip].0 < MAX_CONNS,
{
}

/// An address does not use up the connections of another.
pub proof fn addresses_are_limited_apart(s: Windows, ip: IpAddr, other: IpAddr, now: Instant)
    requires
        ip != other,
        s.pruned(now).windows.contains_key(other),
    ensures
        s.counted(ip, now).0.windows[other] == s.pruned(now).windows[other],
{
}

/// Of the connections of an address, the first ten in ten seconds are let in, and no more; once
/// ten seconds have passed since the first, the count begins anew.
pub proof fn ten_connections_in_ten_seconds(s: Windows, ip: IpAddr, now: Instant)
    requires
        s.windows.contains_key(ip) ==> s.windows[ip].1.nanos <= now.nanos,
        s.last_prune.nanos <= now.nanos,
    ensures
        ({
            let (after, allowed) = s.counted(ip, now);
            let running = s.windows.contains_key(ip) && now.nanos - s.windows[ip].1.nanos < 10_000_000_000;
            &&& after.windows.contains_key(ip)
            &&& !running ==> allowed && after.windows[ip].0 == 1 && after.windows[ip].1 == now
            &&& running ==> (allowed <==> s.windows[ip].0 < 10) && after.windows[ip].1 == s.windows[ip].1
            &&& running && s.windows[ip].0 < u32::MAX ==> after.windows[ip].0 == s.windows[ip].0 + 1
        }),
{
}

/// What is counted of another address stays while its ten seconds run.
pub proof fn running_counts_stay(s: Windows, ip: IpAddr, other: IpAddr, now: Instant)
    requires
        ip != other,
        s.windows.contains_key(other),
        s.windows[other].1.nanos <= now.nanos,
        now.nanos - s.windows[other].1.nanos < 10_000_000_000,
    ensures
        s.counted(ip, now).0.windows.contains_key(other),
        s.counted(ip, now).0.windows[other] == s.windows[other],
{
}

} // verus!
