//! Packets that were sent and are not acknowledged yet: what is kept of them,
//! when they are sent again and when they are given up.

use std::collections::VecDeque;

use vstd::prelude::*;

use crate::bytes::copy_of;
use crate::congestion::{larger, less, smaller};
use crate::protocol::ack::{in_ranges, nonce_in_ranges};
use crate::time::{capped, mul_capped, Duration, Instant};

verus! {

/// The longest wait before a packet is sent again: eight seconds.
pub const MAX_EFFECTIVE_RTO_NANOS: u64 = 8_000_000_000;

/// A packet that was sent. Times are in nanoseconds.
#[verifier::ext_equal]
pub struct Sent {
    pub nonce: u64,
    pub bytes: Seq<u8>,
    pub last_sent: int,
    pub retries: int,
    /// Whether the packet is sent again on its own when it stays
    /// unacknowledged.
    pub reliable: bool,
}

impl Sent {
    /// The packet went out once more.
    pub open spec fn again(self, now: int) -> Sent {
        Sent { last_sent: now, retries: smaller(self.retries + 1, 255), ..self }
    }
}

/// `h` with one more packet; the oldest ones give way beyond `max`.
pub open spec fn remembered(h: Seq<Sent>, f: Sent, max: int) -> Seq<Sent> {
    let p = h.push(f);
    if p.len() > max {
        p.subrange(p.len() - max, p.len() as int)
    } else {
        p
    }
}

/// Where the latest packet of a number is.
pub open spec fn place_of(h: Seq<Sent>, nonce: u64) -> Option<int>
    decreases h.len(),
{
    if h.len() == 0 {
        None
    } else if h.last().nonce == nonce {
        Some(h.len() - 1)
    } else {
        place_of(h.drop_last(), nonce)
    }
}

/// A packet is asked for: the history with its retry noted, and its bytes.
pub open spec fn requested(h: Seq<Sent>, nonce: u64, now: int) -> (Seq<Sent>, Option<Seq<u8>>) {
    match place_of(h, nonce) {
        Some(i) => (h.update(i, h[i].again(now)), Some(h[i].bytes)),
        None => (h, None),
    }
}

/// The packets that the ranges do not acknowledge.
pub open spec fn unacknowledged(h: Seq<Sent>, ranges: Seq<(u64, u64)>) -> Seq<Sent>
    decreases h.len(),
{
    if h.len() == 0 {
        Seq::empty()
    } else if in_ranges(h.last().nonce, ranges) {
        unacknowledged(h.drop_last(), ranges)
    } else {
        unacknowledged(h.drop_last(), ranges).push(h.last())
    }
}

/// The bytes that the ranges acknowledge.
pub open spec fn acknowledged_bytes(h: Seq<Sent>, ranges: Seq<(u64, u64)>) -> int
    decreases h.len(),
{
    if h.len() == 0 {
        0
    } else {
        acknowledged_bytes(h.drop_last(), ranges) + if in_ranges(h.last().nonce, ranges) {
            h.last().bytes.len() as int
        } else {
            0
        }
    }
}

/// The shortest round trip that the ranges show. Only packets that went out
/// once count: of another one nobody knows which copy was acknowledged.
pub open spec fn acknowledged_rtt(h: Seq<Sent>, ranges: Seq<(u64, u64)>, now: int) -> Option<int>
    decreases h.len(),
{
    if h.len() == 0 {
        None
    } else {
        let r = acknowledged_rtt(h.drop_last(), ranges, now);
        if in_ranges(h.last().nonce, ranges) && h.last().retries == 0 {
            let rtt = less(now, h.last().last_sent);
            match r {
                Some(m) => Some(smaller(m, rtt)),
                None => Some(rtt),
            }
        } else {
            r
        }
    }
}

/// The packets that are not given up: reliable ones leave after more than
/// `grace` retries.
pub open spec fn alive(h: Seq<Sent>, grace: int) -> Seq<Sent>
    decreases h.len(),
{
    if h.len() == 0 {
        Seq::empty()
    } else if h.last().reliable && h.last().retries > grace {
        alive(h.drop_last(), grace)
    } else {
        alive(h.drop_last(), grace).push(h.last())
    }
}

/// Two to the number of retries, at most 64.
pub open spec fn backoff(retries: int) -> int {
    if retries <= 0 {
        1
    } else if retries == 1 {
        2
    } else if retries == 2 {
        4
    } else if retries == 3 {
        8
    } else if retries == 4 {
        16
    } else if retries == 5 {
        32
    } else {
        64
    }
}

/// How long a packet waits: the timeout in milliseconds times the backoff, at
/// most eight seconds.
pub open spec fn effective_rto(base_ms: int, retries: int) -> int {
    smaller(capped(capped(base_ms * backoff(retries)) * 1_000_000), MAX_EFFECTIVE_RTO_NANOS as int)
}

/// Whether a packet has waited long enough.
pub open spec fn due(f: Sent, base_ms: int, now: int) -> bool {
    less(now, f.last_sent) >= effective_rto(base_ms, f.retries)
}

/// What a tick does: the history after it, and the packets that go out again.
#[verifier::ext_equal]
pub struct Round {
    pub history: Seq<Sent>,
    pub out: Seq<Seq<u8>>,
}

/// Sends due packets again, the oldest first, at most `budget` of them. A
/// retry is noted where a packet goes out, and only there.
pub open spec fn round(h: Seq<Sent>, budget: int, base_ms: int, now: int) -> Round
    decreases h.len(),
{
    if h.len() == 0 || budget <= 0 {
        Round { history: h, out: Seq::empty() }
    } else if h[0].reliable && due(h[0], base_ms, now) {
        let r = round(h.drop_first(), budget - 1, base_ms, now);
        Round { history: seq![h[0].again(now)] + r.history, out: seq![h[0].bytes] + r.out }
    } else {
        let r = round(h.drop_first(), budget, base_ms, now);
        Round { history: seq![h[0]] + r.history, out: r.out }
    }
}

/// The packets that wait to be sent again, the oldest first.
pub open spec fn overdue(h: Seq<Sent>, base_ms: int, now: int) -> Seq<Seq<u8>>
    decreases h.len(),
{
    if h.len() == 0 {
        Seq::empty()
    } else if h[0].reliable && due(h[0], base_ms, now) {
        seq![h[0].bytes] + overdue(h.drop_first(), base_ms, now)
    } else {
        overdue(h.drop_first(), base_ms, now)
    }
}

/// The retries of all reliable packets.
pub open spec fn total_retries(h: Seq<Sent>) -> int
    decreases h.len(),
{
    if h.len() == 0 {
        0
    } else {
        (if h[0].reliable {
            h[0].retries
        } else {
            0
        }) + total_retries(h.drop_first())
    }
}

/// How many packets are reliable.
pub open spec fn reliable_count(h: Seq<Sent>) -> int
    decreases h.len(),
{
    if h.len() == 0 {
        0
    } else {
        reliable_count(h.drop_last()) + if h.last().reliable {
            1int
        } else {
            0
        }
    }
}

/// A packet that was sent.
pub struct SentFrame {
    nonce: u64,
    bytes: Vec<u8>,
    last_sent: Instant,
    retries: u8,
    is_retransmittable: bool,
}

impl View for SentFrame {
    type V = Sent;

    closed spec fn view(&self) -> Sent {
        Sent {
            nonce: self.nonce,
            bytes: self.bytes@,
            last_sent: self.last_sent.nanos as int,
            retries: self.retries as int,
            reliable: self.is_retransmittable,
        }
    }
}

pub open spec fn sent_views(v: Seq<SentFrame>) -> Seq<Sent> {
    Seq::new(v.len(), |i: int| v[i]@)
}

pub open spec fn byte_views(v: Seq<Vec<u8>>) -> Seq<Seq<u8>> {
    Seq::new(v.len(), |i: int| v[i]@)
}

/// The packets of one session that may still be needed.
pub struct SentHistory {
    frames: VecDeque<SentFrame>,
    max: usize,
}

impl View for SentHistory {
    type V = Seq<Sent>;

    closed spec fn view(&self) -> Seq<Sent> {
        sent_views(self.frames@)
    }
}

/// The most packets that a history of `max` packets keeps: one at least, and no more than
/// memory can hold.
pub open spec fn history_limit(max: int) -> int {
    smaller(larger(max, 1), i64::MAX as int)
}

impl SentHistory {
    /// The most packets that are kept.
    pub closed spec fn limit(&self) -> int {
        self.max as int
    }

    /// The history is within its limit.
    pub open spec fn wf(&self) -> bool {
        self@.len() <= self.limit() && 1 <= self.limit() <= i64::MAX
    }

    /// An empty history of at most `max` packets, and of one at least.
    pub fn new(max: usize) -> (r: Self)
        ensures
            r@ == Seq::<Sent>::empty(),
            r.limit() == history_limit(max as int),
            r.wf(),
    {
        let frames: VecDeque<SentFrame> = VecDeque::new();
        assert(sent_views(frames@) =~= Seq::<Sent>::empty());
        SentHistory {
            frames,
            max: if max == 0 {
                1
            } else if max as u64 > 0x7fff_ffff_ffff_ffff {
                0x7fff_ffff_ffff_ffffu64 as usize
            } else {
                max
            },
        }
    }

    /// How many packets are reliable.
    pub fn in_flight(&self) -> (r: usize)
        ensures
            r == reliable_count(self@),
            self.wf() ==> r <= i64::MAX,
    {
        let mut n: usize = 0;
        let mut i: usize = 0;
        let ghost all = self@;
        assert(all.subrange(0, 0) =~= Seq::<Sent>::empty());
        while i < self.frames.len()
            invariant
                all == self@,
                i <= all.len(),
                n <= i,
                n == reliable_count(all.subrange(0, i as int)),
            decreases all.len() - i,
        {
            let ghost t = all.subrange(0, i + 1);
            assert(t.drop_last() =~= all.subrange(0, i as int));
            assert(t.last() == self.frames@[i as int]@);
            if self.frames[i].is_retransmittable {
                n += 1;
            }
            i += 1;
        }
        assert(all.subrange(0, all.len() as int) =~= all);
        n
    }

    /// The retries of all reliable packets (at most what 64 bits hold).
    pub fn total_retries(&self) -> (r: u64)
        ensures
            r == capped(total_retries(self@)),
    {
        let mut n: u64 = 0;
        let mut i: usize = 0;
        let ghost all = self@;
        assert(all.subrange(0, all.len() as int) =~= all);
        while i < self.frames.len()
            invariant
                all == self@,
                i <= all.len(),
                capped(total_retries(all)) == capped(n + total_retries(all.subrange(i as int, all.len() as int))),
                forall|k: int| 0 <= k < all.len() ==> 0 <= (#[trigger] all[k]).retries <= 255,
            decreases all.len() - i,
        {
            let ghost t = all.subrange(i as int, all.len() as int);
            assert(t.drop_first() =~= all.subrange(i + 1, all.len() as int));
            assert(t[0] == self.frames@[i as int]@);
            proof {
                lemma_total_retries_nonnegative(t.drop_first());
            }
            if self.frames[i].is_retransmittable {
                n = n.saturating_add(self.frames[i].retries as u64);
            }
            i += 1;
        }
        assert(all.subrange(all.len() as int, all.len() as int) =~= Seq::<Sent>::empty());
        n
    }

    /// Remembers a packet that was sent at `now`.
    pub fn push(&mut self, nonce: u64, bytes: Vec<u8>, is_retransmittable: bool, now: Instant)
        requires
            old(self).wf(),
        ensures
            final(self)@ == remembered(
                old(self)@,
                Sent {
                    nonce,
                    bytes: bytes@,
                    last_sent: now.nanos as int,
                    retries: 0,
                    reliable: is_retransmittable,
                },
                old(self).limit(),
            ),
            final(self).limit() == old(self).limit(),
            final(self).wf(),
    {
        let f = SentFrame { nonce, bytes, last_sent: now, retries: 0, is_retransmittable };
        let ghost before = self.frames@;
        self.frames.push_back(f);
        assert(sent_views(self.frames@) =~= sent_views(before).push(f@));
        if self.frames.len() > self.max {
            let ghost full = self.frames@;
            let _ = self.frames.pop_front();
            assert(sent_views(self.frames@) =~= sent_views(full).subrange(1, full.len() as int));
        }
    }

    /// The bytes of packet `nonce`, which goes out again at `now`.
    pub fn request(&mut self, nonce: u64, now: Instant) -> (r: Option<Vec<u8>>)
        ensures
            final(self)@ == requested(old(self)@, nonce, now.nanos as int).0,
            match r {
                Some(b) => requested(old(self)@, nonce, now.nanos as int).1 == Some(b@),
                None => requested(old(self)@, nonce, now.nanos as int).1 is None,
            },
            final(self).limit() == old(self).limit(),
            old(self).wf() ==> final(self).wf(),
    {
        let mut i: usize = self.frames.len();
        let ghost all = self@;
        assert(all.subrange(0, all.len() as int) =~= all);
        while i > 0 && self.frames[i - 1].nonce != nonce
            invariant
                all == self@,
                *self == *old(self),
                i <= all.len(),
                place_of(all, nonce) == place_of(all.subrange(0, i as int), nonce),
            decreases i,
        {
            let ghost t = all.subrange(0, i as int);
            assert(t.drop_last() =~= all.subrange(0, i - 1));
            assert(t.last() == self.frames@[i - 1]@);
            i -= 1;
        }
        if i == 0 {
            return None;
        }
        let ghost t = all.subrange(0, i as int);
        assert(t.last() == self.frames@[i - 1]@);
        let ghost before = self.frames@;
        let mut f = self.frames.remove(i - 1).unwrap();
        let b = copy_of(&f.bytes);
        f.last_sent = now;
        f.retries = f.retries.saturating_add(1);
        assert(f@ == before[i - 1]@.again(now.nanos as int));
        self.frames.insert(i - 1, f);
        assert(sent_views(self.frames@) =~= sent_views(before).update(i - 1, f@));
        Some(b)
    }

    /// Drops what the ranges acknowledge. Returns how many bytes that was and
    /// the shortest round trip it shows.
    pub fn acknowledge(&mut self, ranges: &[(u64, u64)], now: Instant) -> (r: (u64, Option<Duration>))
        ensures
            final(self)@ == unacknowledged(old(self)@, ranges@),
            r.0 == capped(acknowledged_bytes(old(self)@, ranges@)),
            match r.1 {
                Some(d) => acknowledged_rtt(old(self)@, ranges@, now.nanos as int) == Some(d.nanos as int),
                None => acknowledged_rtt(old(self)@, ranges@, now.nanos as int) is None,
            },
            final(self).limit() == old(self).limit(),
            old(self).wf() ==> final(self).wf(),
    {
        let mut bytes: u64 = 0;
        let mut rtt: Option<Duration> = None;
        let mut kept: VecDeque<SentFrame> = VecDeque::new();
        let mut frames: VecDeque<SentFrame> = VecDeque::new();
        let ghost all = self@;
        std::mem::swap(&mut frames, &mut self.frames);
        let ghost source = frames@;
        let n: usize = frames.len();
        let mut i: usize = 0;
        assert(all.subrange(0, 0) =~= Seq::<Sent>::empty());
        assert(sent_views(kept@) =~= Seq::<Sent>::empty());
        while i < n
            invariant
                n == source.len(),
                all == sent_views(source),
                i <= n,
                frames@ == source.subrange(i as int, n as int),
                sent_views(kept@) == unacknowledged(all.subrange(0, i as int), ranges@),
                kept@.len() <= i,
                bytes == capped(acknowledged_bytes(all.subrange(0, i as int), ranges@)),
                acknowledged_bytes(all.subrange(0, i as int), ranges@) >= 0,
                match rtt {
                    Some(d) => acknowledged_rtt(all.subrange(0, i as int), ranges@, now.nanos as int) == Some(
                        d.nanos as int,
                    ),
                    None => acknowledged_rtt(all.subrange(0, i as int), ranges@, now.nanos as int) is None,
                },
            decreases n - i,
        {
            let ghost t = all.subrange(0, i + 1);
            assert(t.drop_last() =~= all.subrange(0, i as int));
            let f = frames.pop_front().unwrap();
            assert(f == source[i as int]);
            assert(t.last() == f@);
            assert(frames@ =~= source.subrange(i + 1, n as int));
            if nonce_in_ranges(f.nonce, ranges) {
                bytes = bytes.saturating_add(f.bytes.len() as u64);
                if f.retries == 0 {
                    let d = now.duration_since(f.last_sent);
                    rtt = match rtt {
                        Some(m) => Some(m.min(d)),
                        None => Some(d),
                    };
                }
            } else {
                let ghost k = kept@;
                kept.push_back(f);
                assert(sent_views(kept@) =~= sent_views(k).push(f@));
            }
            i += 1;
        }
        assert(all.subrange(0, n as int) =~= all);
        self.frames = kept;
        (bytes, rtt)
    }

    /// Gives up reliable packets with more than `grace` retries.
    pub fn evict(&mut self, grace: u8)
        ensures
            final(self)@ == alive(old(self)@, grace as int),
            final(self).limit() == old(self).limit(),
            old(self).wf() ==> final(self).wf(),
    {
        let mut kept: VecDeque<SentFrame> = VecDeque::new();
        let mut frames: VecDeque<SentFrame> = VecDeque::new();
        let ghost all = self@;
        std::mem::swap(&mut frames, &mut self.frames);
        let ghost source = frames@;
        let n: usize = frames.len();
        let mut i: usize = 0;
        assert(all.subrange(0, 0) =~= Seq::<Sent>::empty());
        assert(sent_views(kept@) =~= Seq::<Sent>::empty());
        while i < n
            invariant
                n == source.len(),
                all == sent_views(source),
                i <= n,
                frames@ == source.subrange(i as int, n as int),
                sent_views(kept@) == alive(all.subrange(0, i as int), grace as int),
                kept@.len() <= i,
            decreases n - i,
        {
            let ghost t = all.subrange(0, i + 1);
            assert(t.drop_last() =~= all.subrange(0, i as int));
            let f = frames.pop_front().unwrap();
            assert(f == source[i as int]);
            assert(t.last() == f@);
            assert(frames@ =~= source.subrange(i + 1, n as int));
            if !f.is_retransmittable || f.retries <= grace {
                let ghost k = kept@;
                kept.push_back(f);
                assert(sent_views(kept@) =~= sent_views(k).push(f@));
            }
            i += 1;
        }
        assert(all.subrange(0, n as int) =~= all);
        self.frames = kept;
    }

    /// Sends due packets again, the oldest first, at most `budget` of them.
    pub fn resend(&mut self, budget: usize, base_ms: u64, now: Instant) -> (out: Vec<Vec<u8>>)
        ensures
            final(self)@ == round(old(self)@, budget as int, base_ms as int, now.nanos as int).history,
            byte_views(out@) == round(old(self)@, budget as int, base_ms as int, now.nanos as int).out,
            final(self).limit() == old(self).limit(),
            old(self).wf() ==> final(self).wf(),
    {
        let mut out: Vec<Vec<u8>> = Vec::new();
        let mut left: usize = budget;
        let mut done: VecDeque<SentFrame> = VecDeque::new();
        let mut frames: VecDeque<SentFrame> = VecDeque::new();
        let ghost all = self@;
        let ghost b = base_ms as int;
        let ghost t = now.nanos as int;
        let ghost whole = round(all, budget as int, b, t);
        std::mem::swap(&mut frames, &mut self.frames);
        assert(sent_views(done@) + whole.history =~= whole.history);
        assert(byte_views(out@) + whole.out =~= whole.out);
        while frames.len() > 0 && left > 0
            invariant
                b == base_ms,
                t == now.nanos,
                whole.history == sent_views(done@) + round(sent_views(frames@), left as int, b, t).history,
                whole.out == byte_views(out@) + round(sent_views(frames@), left as int, b, t).out,
                done@.len() + frames@.len() == all.len(),
            decreases frames@.len(),
        {
            let ghost rest = sent_views(frames@);
            let ghost done0 = done@;
            let ghost out0 = out@;
            let mut f = frames.pop_front().unwrap();
            let ghost tail = sent_views(frames@);
            assert(rest.drop_first() =~= tail);
            assert(rest[0] == f@);
            if f.is_retransmittable && now.duration_since(f.last_sent).nanos >= wait_of(base_ms, f.retries).nanos {
                f.last_sent = now;
                f.retries = f.retries.saturating_add(1);
                out.push(copy_of(&f.bytes));
                assert(f@ == rest[0].again(t));
                assert(byte_views(out@) =~= byte_views(out0).push(rest[0].bytes));
                let ghost r = round(tail, left - 1, b, t);
                assert(byte_views(out0) + (seq![rest[0].bytes] + r.out) =~= byte_views(out@) + r.out);
                left -= 1;
            }
            let ghost r = round(tail, left as int, b, t);
            let ghost g = f@;
            done.push_back(f);
            assert(sent_views(done@) =~= sent_views(done0).push(g));
            assert(sent_views(done0) + (seq![g] + r.history) =~= sent_views(done@) + r.history);
        }
        let ghost done1 = done@;
        let ghost rest1 = frames@;
        done.append(&mut frames);
        self.frames = done;
        proof {
            assert(self@ =~= sent_views(done1) + sent_views(rest1));
            assert(byte_views(out@) =~= byte_views(out@) + Seq::<Seq<u8>>::empty());
        }
        out
    }
}

/// How long a packet waits before it is sent again.
pub fn wait_of(base_ms: u64, retries: u8) -> (r: Duration)
    ensures
        r.nanos == effective_rto(base_ms as int, retries as int),
{
    let factor: u64 = if retries == 0 {
        1
    } else if retries == 1 {
        2
    } else if retries == 2 {
        4
    } else if retries == 3 {
        8
    } else if retries == 4 {
        16
    } else if retries == 5 {
        32
    } else {
        64
    };
    let d = Duration::from_millis(mul_capped(base_ms, factor));
    d.min(Duration { nanos: MAX_EFFECTIVE_RTO_NANOS })
}

// ── Laws ─────────────────────────────────────────────────────────────────────

proof fn lemma_total_retries_nonnegative(h: Seq<Sent>)
    requires
        forall|k: int| 0 <= k < h.len() ==> 0 <= (#[trigger] h[k]).retries,
    ensures
        total_retries(h) >= 0,
    decreases h.len(),
{
    if h.len() > 0 {
        let t = h.drop_first();
        assert forall|k: int| 0 <= k < t.len() implies 0 <= (#[trigger] t[k]).retries by {
            assert(t[k] == h[k + 1]);
        }
        lemma_total_retries_nonnegative(t);
    }
}

/// A tick sends at most its budget, and charges exactly one retry for each
/// packet that it sends (below the last number that a retry counter holds).
/// Numbers and contents of the packets stay as they are.
pub proof fn retries_are_charged_for_sent_packets_only(h: Seq<Sent>, budget: int, base_ms: int, now: int)
    requires
        budget >= 0,
        forall|k: int| 0 <= k < h.len() ==> (#[trigger] h[k]).retries < 255,
    ensures
        ({
            let r = round(h, budget, base_ms, now);
            &&& r.out.len() <= budget
            &&& total_retries(r.history) == total_retries(h) + r.out.len()
            &&& r.history.len() == h.len()
            &&& forall|k: int|
                0 <= k < h.len() ==> (#[trigger] r.history[k]).nonce == h[k].nonce && r.history[k].bytes == h[k].bytes
                    && r.history[k].reliable == h[k].reliable
        }),
    decreases h.len(),
{
    let r = round(h, budget, base_ms, now);
    if h.len() > 0 && budget > 0 {
        let rest = h.drop_first();
        let left = if h[0].reliable && due(h[0], base_ms, now) {
            budget - 1
        } else {
            budget
        };
        assert forall|k: int| 0 <= k < rest.len() implies (#[trigger] rest[k]).retries < 255 by {
            assert(rest[k] == h[k + 1]);
        }
        retries_are_charged_for_sent_packets_only(rest, left, base_ms, now);
        let q = round(rest, left, base_ms, now);
        assert(r.history.drop_first() =~= q.history);
        assert forall|k: int| 0 <= k < h.len() implies (#[trigger] r.history[k]).nonce == h[k].nonce
            && r.history[k].bytes == h[k].bytes && r.history[k].reliable == h[k].reliable by {
            if k > 0 {
                assert(r.history[k] == q.history[k - 1]);
                assert(rest[k - 1] == h[k]);
            }
        }
    }
}

/// A packet is sent again by a tick only when it is reliable and has waited out
/// its backoff.
pub proof fn early_packets_are_not_resent(h: Seq<Sent>, budget: int, base_ms: int, now: int)
    requires
        forall|k: int| 0 <= k < h.len() ==> !((#[trigger] h[k]).reliable && due(h[k], base_ms, now)),
    ensures
        round(h, budget, base_ms, now) == (Round { history: h, out: Seq::empty() }),
    decreases h.len(),
{
    if h.len() > 0 && budget > 0 {
        let rest = h.drop_first();
        assert forall|k: int| 0 <= k < rest.len() implies !((#[trigger] rest[k]).reliable && due(
            rest[k],
            base_ms,
            now,
        )) by {
            assert(rest[k] == h[k + 1]);
        }
        assert(!(h[0].reliable && due(h[0], base_ms, now)));
        early_packets_are_not_resent(rest, budget, base_ms, now);
        assert(seq![h[0]] + rest =~= h);
    }
}

/// An acknowledged packet leaves the history; every other one stays.
pub proof fn acknowledged_packets_leave(h: Seq<Sent>, ranges: Seq<(u64, u64)>, f: Sent)
    ensures
        unacknowledged(h, ranges).contains(f) <==> h.contains(f) && !in_ranges(f.nonce, ranges),
    decreases h.len(),
{
    if h.len() > 0 {
        let d = h.drop_last();
        acknowledged_packets_leave(d, ranges, f);
        let u = unacknowledged(d, ranges);
        let w = unacknowledged(h, ranges);
        if h.contains(f) && !in_ranges(f.nonce, ranges) {
            let i = choose|i: int| 0 <= i < h.len() && h[i] == f;
            if i < d.len() {
                assert(d[i] == f);
                assert(u.contains(f));
                let j = choose|j: int| 0 <= j < u.len() && u[j] == f;
                assert(w[j] == f);
            } else {
                assert(w[w.len() - 1] == f);
            }
        }
        if w.contains(f) {
            let j = choose|j: int| 0 <= j < w.len() && w[j] == f;
            if j < u.len() {
                assert(u[j] == f);
                assert(u.contains(f));
                let i = choose|i: int| 0 <= i < d.len() && d[i] == f;
                assert(h[i] == f);
            } else {
                assert(h[h.len() - 1] == f);
            }
        }
    }
}

proof fn lemma_round_len(h: Seq<Sent>, budget: int, base_ms: int, now: int)
    ensures
        round(h, budget, base_ms, now).history.len() == h.len(),
    decreases h.len(),
{
    if h.len() > 0 && budget > 0 {
        lemma_round_len(h.drop_first(), budget - 1, base_ms, now);
        lemma_round_len(h.drop_first(), budget, base_ms, now);
    }
}

/// While a tick has not used its budget up, every reliable packet that has waited out its
/// timeout is sent again.
pub proof fn overdue_packets_are_resent(h: Seq<Sent>, budget: int, base_ms: int, now: int, k: int)
    requires
        round(h, budget, base_ms, now).out.len() < budget,
        0 <= k < h.len(),
        h[k].reliable,
        due(h[k], base_ms, now),
    ensures
        round(h, budget, base_ms, now).out.contains(h[k].bytes),
        round(h, budget, base_ms, now).history[k] == h[k].again(now),
    decreases h.len(),
{
    let r = round(h, budget, base_ms, now);
    let rest = h.drop_first();
    lemma_round_len(rest, budget - 1, base_ms, now);
    lemma_round_len(rest, budget, base_ms, now);
    if h[0].reliable && due(h[0], base_ms, now) {
        let q = round(rest, budget - 1, base_ms, now);
        assert(r.out[0] == h[0].bytes);
        if k > 0 {
            assert(rest[k - 1] == h[k]);
            overdue_packets_are_resent(rest, budget - 1, base_ms, now, k - 1);
            let j = choose|j: int| 0 <= j < q.out.len() && q.out[j] == h[k].bytes;
            assert(r.out[j + 1] == h[k].bytes);
            assert(r.history[k] == q.history[k - 1]);
        }
    } else {
        assert(rest[k - 1] == h[k]);
        overdue_packets_are_resent(rest, budget, base_ms, now, k - 1);
        assert(r.history[k] == round(rest, budget, base_ms, now).history[k - 1]);
    }
}

/// A tick sends the oldest of the overdue packets again, as many as its budget allows, in
/// their order. These are noted as sent once more, and every other one stays as it is.
pub proof fn the_oldest_are_resent_first(h: Seq<Sent>, budget: int, base_ms: int, now: int)
    requires
        budget >= 0,
    ensures
        ({
            let r = round(h, budget, base_ms, now);
            let all = overdue(h, base_ms, now);
            &&& r.out == all.take(smaller(budget, all.len() as int))
            &&& r.history.len() == h.len()
            &&& forall|k: int|
                0 <= k < h.len() ==> #[trigger] r.history[k] == if h[k].reliable && due(h[k], base_ms, now) && overdue(
                    h.take(k),
                    base_ms,
                    now,
                ).len() < budget {
                    h[k].again(now)
                } else {
                    h[k]
                }
        }),
    decreases h.len(),
{
    let r = round(h, budget, base_ms, now);
    let all = overdue(h, base_ms, now);
    lemma_round_len(h, budget, base_ms, now);
    if h.len() > 0 && budget > 0 {
        let rest = h.drop_first();
        let first = h[0].reliable && due(h[0], base_ms, now);
        let left = if first {
            budget - 1
        } else {
            budget
        };
        the_oldest_are_resent_first(rest, left, base_ms, now);
        let q = round(rest, left, base_ms, now);
        let more = overdue(rest, base_ms, now);
        let n = smaller(budget, all.len() as int);
        if first {
            assert(seq![h[0].bytes] + more.take(n - 1) =~= all.take(n));
        }
        assert forall|k: int| 0 <= k < h.len() implies #[trigger] r.history[k] == if h[k].reliable && due(
            h[k],
            base_ms,
            now,
        ) && overdue(h.take(k), base_ms, now).len() < budget {
            h[k].again(now)
        } else {
            h[k]
        } by {
            if k > 0 {
                assert(r.history[k] == q.history[k - 1]);
                assert(rest[k - 1] == h[k]);
                assert(h.take(k).drop_first() =~= rest.take(k - 1));
            }
        }
    } else {
        assert(r.out =~= all.take(smaller(budget, all.len() as int)));
    }
}

/// A packet leaves the history by a tick only where it is reliable and was sent again more
/// often than `grace` times; and each such packet leaves.
pub proof fn only_exhausted_packets_leave(h: Seq<Sent>, grace: int, f: Sent)
    ensures
        alive(h, grace).contains(f) <==> h.contains(f) && !(f.reliable && f.retries > grace),
    decreases h.len(),
{
    if h.len() > 0 {
        let d = h.drop_last();
        only_exhausted_packets_leave(d, grace, f);
        let u = alive(d, grace);
        let w = alive(h, grace);
        if h.contains(f) && !(f.reliable && f.retries > grace) {
            let i = choose|i: int| 0 <= i < h.len() && h[i] == f;
            if i < d.len() {
                assert(d[i] == f);
                let j = choose|j: int| 0 <= j < u.len() && u[j] == f;
                assert(w[j] == f);
            } else {
                assert(w[w.len() - 1] == f);
            }
        }
        if w.contains(f) {
            let j = choose|j: int| 0 <= j < w.len() && w[j] == f;
            if j < u.len() {
                assert(u[j] == f);
                let i = choose|i: int| 0 <= i < d.len() && d[i] == f;
                assert(h[i] == f);
            } else {
                assert(h[h.len() - 1] == f);
            }
        }
    }
}

/// A packet that is not reliable is no part of what a tick sends again.
pub proof fn lemma_round_with_unreliable(h: Seq<Sent>, f: Sent, budget: int, base_ms: int, now: int)
    requires
        !f.reliable,
    ensures
        round(h.push(f), budget, base_ms, now).history == round(h, budget, base_ms, now).history.push(f),
        round(h.push(f), budget, base_ms, now).out == round(h, budget, base_ms, now).out,
    decreases h.len(),
{
    let w = h.push(f);
    if h.len() == 0 {
        reveal_with_fuel(round, 2);
        assert(w.drop_first() =~= h);
        assert(seq![f] + h =~= w);
        assert(round(w, budget, base_ms, now).history =~= h.push(f));
    } else if budget > 0 {
        let rest = h.drop_first();
        assert(w.drop_first() =~= rest.push(f));
        let left = if h[0].reliable && due(h[0], base_ms, now) {
            budget - 1
        } else {
            budget
        };
        lemma_round_with_unreliable(rest, f, left, base_ms, now);
        assert(round(w, budget, base_ms, now).history =~= round(h, budget, base_ms, now).history.push(f));
    }
}

proof fn lemma_place(h: Seq<Sent>, i: int)
    requires
        0 <= i < h.len(),
        forall|j: int| i < j < h.len() ==> (#[trigger] h[j]).nonce != h[i].nonce,
    ensures
        place_of(h, h[i].nonce) == Some(i),
    decreases h.len(),
{
    if i < h.len() - 1 {
        let d = h.drop_last();
        assert(h[h.len() - 1].nonce != h[i].nonce);
        assert forall|j: int| i < j < d.len() implies (#[trigger] d[j]).nonce != d[i].nonce by {
            assert(d[j] == h[j]);
        }
        lemma_place(d, i);
    }
}

/// A request for a packet that is in the history gives exactly the bytes that went out under
/// its number, those of the latest one where there are more. The packet stays in its place,
/// as one that went out at this moment and once more than before; all others stay as they
/// are.
pub proof fn requested_packets_are_given(h: Seq<Sent>, i: int, now: int)
    requires
        0 <= i < h.len(),
        forall|j: int| i < j < h.len() ==> (#[trigger] h[j]).nonce != h[i].nonce,
        0 <= h[i].retries <= 255,
    ensures
        ({
            let (after, bytes) = requested(h, h[i].nonce, now);
            &&& bytes == Some(h[i].bytes)
            &&& after.len() == h.len()
            &&& forall|j: int| 0 <= j < h.len() && j != i ==> #[trigger] after[j] == h[j]
            &&& after[i].nonce == h[i].nonce && after[i].bytes == h[i].bytes && after[i].reliable == h[i].reliable
            &&& after[i].last_sent == now
            &&& after[i].retries == if h[i].retries < 255 {
                h[i].retries + 1
            } else {
                255
            }
        }),
{
    lemma_place(h, i);
}

/// A request for a packet that is not in the history gives nothing and changes nothing.
pub proof fn unknown_packets_are_not_given(h: Seq<Sent>, nonce: u64, now: int)
    requires
        forall|j: int| 0 <= j < h.len() ==> (#[trigger] h[j]).nonce != nonce,
    ensures
        requested(h, nonce, now) == (h, None::<Seq<u8>>),
    decreases h.len(),
{
    if h.len() > 0 {
        let d = h.drop_last();
        assert(h[h.len() - 1].nonce != nonce);
        assert forall|j: int| 0 <= j < d.len() implies (#[trigger] d[j]).nonce != nonce by {
            assert(d[j] == h[j]);
        }
        unknown_packets_are_not_given(d, nonce, now);
    }
}

/// A history keeps the packet that is added last, and of the others the latest ones, in
/// their order, as many as it has room for.
pub proof fn histories_keep_the_latest(h: Seq<Sent>, f: Sent, max: int)
    requires
        max >= 1,
    ensures
        ({
            let after = remembered(h, f, max);
            let n = if h.len() + 1 < max {
                h.len() + 1int
            } else {
                max
            };
            &&& after.len() == n
            &&& after[n - 1] == f
            &&& forall|k: int| 0 <= k < n - 1 ==> #[trigger] after[k] == h[h.len() - (n - 1) + k]
        }),
{
}

/// The first retransmission of a packet waits for the base timeout, and each one after it for
/// twice as long as the one before, up to 64 times the base; no wait is longer than eight
/// seconds.
pub proof fn waits_double(base_ms: int, retries: int)
    requires
        0 <= base_ms <= 16_000,
        0 <= retries,
    ensures
        effective_rto(base_ms, 0) == if base_ms < 8_000 {
            base_ms * 1_000_000
        } else {
            8_000_000_000
        },
        retries < 6 && effective_rto(base_ms, retries) < 4_000_000_000 ==> effective_rto(base_ms, retries + 1) == 2
            * effective_rto(base_ms, retries),
        retries < 6 && effective_rto(base_ms, retries) >= 4_000_000_000 ==> effective_rto(base_ms, retries + 1)
            == 8_000_000_000,
        retries >= 6 ==> effective_rto(base_ms, retries + 1) == effective_rto(base_ms, retries),
{
}

/// A packet is overdue once its wait is over, and not before.
pub proof fn packets_are_due_after_their_wait(f: Sent, base_ms: int, now: int)
    requires
        f.last_sent <= now,
    ensures
        due(f, base_ms, now) <==> now - f.last_sent >= effective_rto(base_ms, f.retries),
{
}

proof fn lemma_acknowledged_bytes(h: Seq<Sent>, ranges: Seq<(u64, u64)>)
    ensures
        acknowledged_bytes(h, ranges) + in_flight_bytes(unacknowledged(h, ranges)) == in_flight_bytes(h),
    decreases h.len(),
{
    if h.len() > 0 {
        lemma_acknowledged_bytes(h.drop_last(), ranges);
        let u = unacknowledged(h.drop_last(), ranges);
        if !in_ranges(h.last().nonce, ranges) {
            assert(u.push(h.last()).drop_last() =~= u);
        }
    }
}

/// The bytes of all packets of a history.
pub open spec fn in_flight_bytes(h: Seq<Sent>) -> int
    decreases h.len(),
{
    if h.len() == 0 {
        0
    } else {
        in_flight_bytes(h.drop_last()) + h.last().bytes.len()
    }
}

/// The bytes that an acknowledgement counts are those of the packets that leave by it.
pub proof fn acknowledged_bytes_leave(h: Seq<Sent>, ranges: Seq<(u64, u64)>)
    ensures
        in_flight_bytes(h) - in_flight_bytes(unacknowledged(h, ranges)) == acknowledged_bytes(h, ranges),
{
    lemma_acknowledged_bytes(h, ranges);
}

/// The round trip of an acknowledgement is the time since the latest of the packets that it
/// acknowledges and that went out once; there is none where each of them went out again.
pub proof fn round_trips_are_of_packets_sent_once(h: Seq<Sent>, ranges: Seq<(u64, u64)>, now: int)
    requires
        forall|k: int| 0 <= k < h.len() ==> (#[trigger] h[k]).last_sent <= now,
    ensures
        match acknowledged_rtt(h, ranges, now) {
            Some(rtt) => {
                &&& exists|k: int|
                    0 <= k < h.len() && in_ranges((#[trigger] h[k]).nonce, ranges) && h[k].retries == 0 && rtt == now
                        - h[k].last_sent
                &&& forall|k: int|
                    0 <= k < h.len() && in_ranges((#[trigger] h[k]).nonce, ranges) && h[k].retries == 0 ==> rtt <= now
                        - h[k].last_sent
            },
            None => forall|k: int|
                0 <= k < h.len() && in_ranges((#[trigger] h[k]).nonce, ranges) ==> h[k].retries != 0,
        },
    decreases h.len(),
{
    if h.len() > 0 {
        let d = h.drop_last();
        let n = h.len() - 1;
        assert forall|k: int| 0 <= k < d.len() implies (#[trigger] d[k]).last_sent <= now by {
            assert(d[k] == h[k]);
        }
        round_trips_are_of_packets_sent_once(d, ranges, now);
        assert(forall|k: int| 0 <= k < n ==> d[k] == h[k]);
        assert(h[n] == h.last());
        if let Some(r) = acknowledged_rtt(d, ranges, now) {
            let k = choose|k: int|
                0 <= k < d.len() && in_ranges((#[trigger] d[k]).nonce, ranges) && d[k].retries == 0 && r == now
                    - d[k].last_sent;
            assert(h[k] == d[k]);
        }
    }
}

} // verus!
