//! The receiving side of a session: which packet is next, and what arrived
//! before its turn.

use std::collections::VecDeque;

use vstd::prelude::*;

use crate::time::{Duration, Instant};

verus! {

/// What a packet gives the application: data of a stream, or nothing.
#[verifier::ext_equal]
pub struct Item {
    pub data: Option<(u16, Seq<u8>)>,
}

/// A packet that waits for its turn.
#[verifier::ext_equal]
pub struct Waiting {
    pub nonce: u64,
    pub item: Item,
}

/// The state of the receiving side. Times are in nanoseconds.
#[verifier::ext_equal]
pub struct Receiving {
    /// The packet number that is delivered next.
    pub expected: u64,
    /// Packets beyond it, in order of their numbers.
    pub held: Seq<Waiting>,
    /// The highest number that passed authentication.
    pub highest: Option<u64>,
    /// When `expected` last moved.
    pub last_advance: int,
    /// How far beyond `expected` a packet may be.
    pub max_reorder: u64,
    /// How many packets may wait.
    pub max_held: int,
}

/// What leaves the waiting packets when the next number is `expected`.
#[verifier::ext_equal]
pub struct Drained {
    pub expected: u64,
    pub held: Seq<Waiting>,
    pub items: Seq<Item>,
    /// The last packet number was used up.
    pub exhausted: bool,
}

/// Takes packets off the front for as long as they have the number that is due.
pub open spec fn drained(expected: u64, held: Seq<Waiting>) -> Drained
    decreases held.len(),
{
    if held.len() > 0 && held[0].nonce == expected {
        if expected == u64::MAX {
            Drained { expected, held: held.drop_first(), items: seq![held[0].item], exhausted: true }
        } else {
            let d = drained((expected + 1) as u64, held.drop_first());
            Drained { items: seq![held[0].item] + d.items, ..d }
        }
    } else {
        Drained { expected, held, items: Seq::empty(), exhausted: false }
    }
}

/// Numbers strictly increase.
pub open spec fn increasing(held: Seq<Waiting>) -> bool {
    forall|i: int, j: int| 0 <= i < j < held.len() ==> (#[trigger] held[i]).nonce < (#[trigger] held[j]).nonce
}

/// How many of the waiting packets come before number `n`.
pub open spec fn slot(held: Seq<Waiting>, n: u64) -> int
    decreases held.len(),
{
    if held.len() == 0 || held[0].nonce >= n {
        0
    } else {
        1 + slot(held.drop_first(), n)
    }
}

/// The waiting packets with one more; it replaces one of the same number.
pub open spec fn with_held(held: Seq<Waiting>, w: Waiting) -> Seq<Waiting> {
    let p = slot(held, w.nonce);
    if p < held.len() && held[p].nonce == w.nonce {
        held.update(p, w)
    } else {
        held.insert(p, w)
    }
}

/// The numbers of the waiting packets.
pub open spec fn nonces(held: Seq<Waiting>) -> Seq<u64> {
    Seq::new(held.len(), |i: int| held[i].nonce)
}

impl Receiving {
    /// Packets wait only beyond the expected number, in order, and not more
    /// than may.
    pub open spec fn wf(self) -> bool {
        &&& increasing(self.held)
        &&& forall|i: int| 0 <= i < self.held.len() ==> self.expected < (#[trigger] self.held[i]).nonce
        &&& self.held.len() <= self.max_held
        &&& self.max_held >= 1
        &&& self.max_reorder >= 1
    }

    /// The first number that is too far ahead is one beyond this.
    pub open spec fn furthest(self) -> int {
        self.expected + self.max_reorder
    }

    /// Packet `nonce` passed authentication.
    pub open spec fn authenticated(self, nonce: u64) -> Receiving {
        Receiving {
            highest: match self.highest {
                Some(h) if h >= nonce => Some(h),
                _ => Some(nonce),
            },
            ..self
        }
    }

    /// Packet `nonce`, not below the expected one, is taken: what is delivered,
    /// or nothing at all where the numbers are used up.
    pub open spec fn taken(self, nonce: u64, item: Item, now: int) -> (Receiving, Option<Seq<Item>>) {
        if nonce == self.expected {
            if nonce == u64::MAX {
                (self, None)
            } else {
                let d = drained((nonce + 1) as u64, self.held);
                (
                    Receiving { expected: d.expected, held: d.held, last_advance: now, ..self },
                    if d.exhausted {
                        None
                    } else {
                        Some(seq![item] + d.items)
                    },
                )
            }
        } else {
            (
                Receiving {
                    held: if self.held.len() < self.max_held {
                        with_held(self.held, Waiting { nonce, item })
                    } else {
                        self.held
                    },
                    ..self
                },
                Some(Seq::empty()),
            )
        }
    }

    /// Nothing moved for `timeout` while packets wait.
    pub open spec fn stalled(self, timeout: int, now: int) -> bool {
        self.held.len() > 0 && (if now >= self.last_advance {
            now - self.last_advance
        } else {
            0
        }) >= timeout
    }

    /// A stalled side gives the missing packets up and goes on with the first
    /// one that waits.
    pub open spec fn recovered(self, timeout: int, now: int) -> (Receiving, Seq<Item>) {
        if self.stalled(timeout, now) {
            let d = drained(self.held[0].nonce, self.held);
            (Receiving { expected: d.expected, held: d.held, last_advance: now, ..self }, d.items)
        } else {
            (self, Seq::empty())
        }
    }
}

/// What a packet gives the application.
pub struct Delivery {
    pub data: Option<(u16, Vec<u8>)>,
}

impl View for Delivery {
    type V = Item;

    open spec fn view(&self) -> Item {
        Item {
            data: match self.data {
                Some((stream, payload)) => Some((stream, payload@)),
                None => None,
            },
        }
    }
}

pub open spec fn items(v: Seq<Delivery>) -> Seq<Item> {
    Seq::new(v.len(), |i: int| v[i]@)
}

pub struct Held {
    pub nonce: u64,
    pub delivery: Delivery,
}

impl View for Held {
    type V = Waiting;

    open spec fn view(&self) -> Waiting {
        Waiting { nonce: self.nonce, item: self.delivery@ }
    }
}

pub open spec fn waiting(v: Seq<Held>) -> Seq<Waiting> {
    Seq::new(v.len(), |i: int| v[i]@)
}

/// The receiving side of a session.
pub struct ReceiveWindow {
    expected: u64,
    held: VecDeque<Held>,
    highest: Option<u64>,
    last_advance: Instant,
    max_reorder: u64,
    max_held: usize,
}

impl View for ReceiveWindow {
    type V = Receiving;

    closed spec fn view(&self) -> Receiving {
        Receiving {
            expected: self.expected,
            held: waiting(self.held@),
            highest: self.highest,
            last_advance: self.last_advance.nanos as int,
            max_reorder: self.max_reorder,
            max_held: self.max_held as int,
        }
    }
}

impl ReceiveWindow {
    /// A side that has received nothing; the limits are at least one.
    pub fn new(max_reorder: u64, max_held: usize, now: Instant) -> (r: Self)
        ensures
            r@ == (Receiving {
                expected: 0,
                held: Seq::empty(),
                highest: None,
                last_advance: now.nanos as int,
                max_reorder: if max_reorder >= 1 {
                    max_reorder
                } else {
                    1
                },
                max_held: if max_held >= 1 {
                    max_held as int
                } else {
                    1
                },
            }),
            r@.wf(),
    {
        let held: VecDeque<Held> = VecDeque::new();
        assert(waiting(held@) =~= Seq::empty());
        ReceiveWindow {
            expected: 0,
            held,
            highest: None,
            last_advance: now,
            max_reorder: if max_reorder >= 1 {
                max_reorder
            } else {
                1
            },
            max_held: if max_held >= 1 {
                max_held
            } else {
                1
            },
        }
    }

    pub fn expected(&self) -> (r: u64)
        ensures
            r == self@.expected,
    {
        self.expected
    }

    pub fn highest(&self) -> (r: Option<u64>)
        ensures
            r == self@.highest,
    {
        self.highest
    }

    /// Whether a packet number is beyond the reorder window.
    pub fn too_far(&self, nonce: u64) -> (r: bool)
        ensures
            r == (nonce > self@.furthest()),
    {
        match self.expected.checked_add(self.max_reorder) {
            Some(limit) => nonce > limit,
            None => false,
        }
    }

    /// The numbers of the packets that wait.
    pub fn held_nonces(&self) -> (r: Vec<u64>)
        ensures
            r@ == nonces(self@.held),
    {
        let mut r: Vec<u64> = Vec::new();
        let mut i: usize = 0;
        while i < self.held.len()
            invariant
                i <= self.held@.len(),
                r@.len() == i,
                forall|k: int| 0 <= k < i ==> r@[k] == self.held@[k].nonce,
            decreases self.held@.len() - i,
        {
            r.push(self.held[i].nonce);
            i += 1;
        }
        assert(r@ =~= nonces(self@.held));
        r
    }

    /// Packet `nonce` passed authentication.
    pub fn note_authentic(&mut self, nonce: u64)
        ensures
            final(self)@ == old(self)@.authenticated(nonce),
    {
        match self.highest {
            Some(h) => {
                if h < nonce {
                    self.highest = Some(nonce);
                }
            },
            None => {
                self.highest = Some(nonce);
            },
        }
    }

    /// Takes packets off the front for as long as they have the number that is
    /// due. Returns whether the numbers were used up.
    fn drain(&mut self, out: &mut Vec<Delivery>) -> (exhausted: bool)
        ensures
            final(self)@ == ({
                let d = drained(old(self)@.expected, old(self)@.held);
                Receiving { expected: d.expected, held: d.held, ..old(self)@ }
            }),
            items(final(out)@) == items(old(out)@) + drained(old(self)@.expected, old(self)@.held).items,
            exhausted == drained(old(self)@.expected, old(self)@.held).exhausted,
    {
        let ghost all = drained(self@.expected, self@.held);
        let ghost start = *self;
        while self.held.len() > 0 && self.held[0].nonce == self.expected
            invariant
                start == *old(self),
                all == drained(old(self)@.expected, old(self)@.held),
                items(out@) + drained(self@.expected, self@.held).items =~= items(old(out)@) + all.items,
                drained(self@.expected, self@.held).expected == all.expected,
                drained(self@.expected, self@.held).held == all.held,
                drained(self@.expected, self@.held).exhausted == all.exhausted,
                self.highest == start.highest,
                self.last_advance == start.last_advance,
                self.max_reorder == start.max_reorder,
                self.max_held == start.max_held,
            decreases self.held@.len(),
        {
            let ghost before = self@;
            let ghost out0 = out@;
            let h = self.held.pop_front().unwrap();
            assert(waiting(self.held@) =~= before.held.drop_first());
            out.push(h.delivery);
            assert(items(out@) =~= items(out0) + seq![before.held[0].item]);
            if self.expected == u64::MAX {
                assert(items(out@) =~= items(old(out)@) + all.items);
                return true;
            }
            self.expected = self.expected + 1;
            assert(items(out0) + (seq![before.held[0].item] + drained(self@.expected, self@.held).items) =~= items(
                out@,
            ) + drained(self@.expected, self@.held).items);
        }
        assert(self@.held.len() > 0 ==> self@.held[0].nonce == self.held@[0].nonce);
        assert(items(out@) =~= items(old(out)@) + all.items);
        false
    }

    /// Where packet `nonce` belongs among those that wait.
    fn slot_of(&self, nonce: u64) -> (r: usize)
        ensures
            r == slot(self@.held, nonce),
            r <= self@.held.len(),
    {
        let mut i: usize = 0;
        let ghost all = self@.held;
        assert(all.subrange(0, all.len() as int) =~= all);
        while i < self.held.len() && self.held[i].nonce < nonce
            invariant
                all == self@.held,
                i <= all.len(),
                slot(all, nonce) == i + slot(all.subrange(i as int, all.len() as int), nonce),
            decreases all.len() - i,
        {
            let ghost rest = all.subrange(i as int, all.len() as int);
            assert(rest[0] == all[i as int]);
            assert(rest.drop_first() =~= all.subrange(i + 1, all.len() as int));
            i += 1;
        }
        proof {
            let rest = all.subrange(i as int, all.len() as int);
            if rest.len() > 0 {
                assert(rest[0] == all[i as int]);
            }
        }
        i
    }

    /// Takes packet `nonce`, which is not below the expected one. `None` where
    /// the packet numbers are used up.
    pub fn take(&mut self, nonce: u64, delivery: Delivery, now: Instant) -> (r: Option<Vec<Delivery>>)
        requires
            old(self)@.wf(),
            nonce >= old(self)@.expected,
        ensures
            final(self)@ == old(self)@.taken(nonce, delivery@, now.nanos as int).0,
            final(self)@.wf(),
            match r {
                Some(v) => old(self)@.taken(nonce, delivery@, now.nanos as int).1 == Some(items(v@)),
                None => old(self)@.taken(nonce, delivery@, now.nanos as int).1 is None,
            },
    {
        proof {
            taking_keeps_the_window(self@, nonce, delivery@, now.nanos as int);
        }
        let mut out: Vec<Delivery> = Vec::new();
        if nonce == self.expected {
            if nonce == u64::MAX {
                return None;
            }
            out.push(delivery);
            assert(items(out@) =~= seq![delivery@]);
            self.expected = nonce + 1;
            self.last_advance = now;
            let exhausted = self.drain(&mut out);
            if exhausted {
                return None;
            }
            return Some(out);
        }
        if self.held.len() < self.max_held {
            let p: usize = self.slot_of(nonce);
            let ghost before = self.held@;
            let w = Held { nonce, delivery };
            let same = p < self.held.len() && self.held[p].nonce == nonce;
            if same {
                let _ = self.held.remove(p);
                self.held.insert(p, w);
                assert(waiting(self.held@) =~= waiting(before).update(p as int, w@));
            } else {
                self.held.insert(p, w);
                assert(waiting(self.held@) =~= waiting(before).insert(p as int, w@));
            }
        }
        assert(items(out@) =~= Seq::empty());
        Some(out)
    }

    /// Gives missing packets up where nothing moved for `timeout`.
    pub fn recover(&mut self, timeout: Duration, now: Instant) -> (r: Vec<Delivery>)
        requires
            old(self)@.wf(),
        ensures
            final(self)@ == old(self)@.recovered(timeout.nanos as int, now.nanos as int).0,
            items(r@) == old(self)@.recovered(timeout.nanos as int, now.nanos as int).1,
            final(self)@.wf(),
    {
        proof {
            recovery_keeps_the_window(self@, timeout.nanos as int, now.nanos as int);
        }
        let mut out: Vec<Delivery> = Vec::new();
        assert(items(out@) =~= Seq::empty());
        if self.held.len() == 0 || now.duration_since(self.last_advance).nanos < timeout.nanos {
            return out;
        }
        assert(self@.held[0].nonce == self.held@[0].nonce);
        self.expected = self.held[0].nonce;
        self.last_advance = now;
        let _ = self.drain(&mut out);
        assert(items(out@) =~= old(self)@.recovered(timeout.nanos as int, now.nanos as int).1);
        out
    }
}

// ── Laws ─────────────────────────────────────────────────────────────────────

/// A packet that comes early waits for its turn, while there is room; the others that wait
/// stay.
pub proof fn early_packets_wait(r: Receiving, nonce: u64, item: Item, now: int)
    requires
        r.wf(),
        nonce > r.expected,
        r.held.len() < r.max_held,
    ensures
        ({
            let (t, out) = r.taken(nonce, item, now);
            &&& out == Some(Seq::<Item>::empty())
            &&& t.expected == r.expected
            &&& t.held.contains(Waiting { nonce, item })
            &&& forall|w: Waiting| w.nonce != nonce ==> (#[trigger] t.held.contains(w) <==> r.held.contains(w))
        }),
{
    let x = Waiting { nonce, item };
    let p = slot(r.held, nonce);
    lemma_slot(r.held, nonce);
    let h = with_held(r.held, x);
    assert(h[p] == x);
    assert forall|w: Waiting| w.nonce != nonce implies (#[trigger] h.contains(w) <==> r.held.contains(w)) by {
        if p < r.held.len() && r.held[p].nonce == nonce {
            if h.contains(w) {
                let i = choose|i: int| 0 <= i < h.len() && h[i] == w;
                assert(r.held[i] == w);
            }
            if r.held.contains(w) {
                let i = choose|i: int| 0 <= i < r.held.len() && r.held[i] == w;
                assert(h[i] == w);
            }
        } else {
            if h.contains(w) {
                let i = choose|i: int| 0 <= i < h.len() && h[i] == w;
                let j = if i < p {
                    i
                } else {
                    i - 1
                };
                assert(r.held[j] == w);
            }
            if r.held.contains(w) {
                let i = choose|i: int| 0 <= i < r.held.len() && r.held[i] == w;
                let j = if i < p {
                    i
                } else {
                    i + 1
                };
                assert(h[j] == w);
            }
        }
    }
}

/// What leaves the waiting packets are the first ones, and they carry
/// consecutive numbers from the expected one on: nothing is skipped, repeated or
/// put out of order.
pub proof fn packets_leave_in_order(expected: u64, held: Seq<Waiting>)
    ensures
        ({
            let d = drained(expected, held);
            let n = d.items.len();
            &&& n <= held.len()
            &&& forall|i: int|
                #![trigger held[i]]
                #![trigger d.items[i]]
                0 <= i < n ==> held[i].nonce == expected + i && d.items[i] == held[i].item
            &&& d.held == held.subrange(n as int, held.len() as int)
            &&& !d.exhausted ==> d.expected == expected + n
            &&& d.exhausted ==> d.expected == u64::MAX && n > 0 && expected + n == u64::MAX + 1
            &&& !d.exhausted && d.held.len() > 0 ==> d.held[0].nonce != d.expected
        }),
    decreases held.len(),
{
    if held.len() > 0 && held[0].nonce == expected && expected != u64::MAX {
        let rest = held.drop_first();
        packets_leave_in_order((expected + 1) as u64, rest);
        let e = drained((expected + 1) as u64, rest);
        let d = drained(expected, held);
        let n = d.items.len() as int;
        assert(d.items =~= seq![held[0].item] + e.items);
        assert forall|i: int|
            #![trigger held[i]]
            #![trigger d.items[i]]
            0 <= i < n implies held[i].nonce == expected + i && d.items[i] == held[i].item by {
            if i > 0 {
                assert(e.items[i - 1] == rest[i - 1].item);
                assert(rest[i - 1] == held[i]);
            }
        }
        assert(rest.subrange(n - 1, rest.len() as int) =~= held.subrange(n, held.len() as int));
    } else if held.len() > 0 && held[0].nonce == expected {
        assert(held.drop_first() =~= held.subrange(1, held.len() as int));
    } else {
        assert(held.subrange(0, held.len() as int) =~= held);
    }
}

proof fn lemma_drained_wf(expected: u64, held: Seq<Waiting>)
    requires
        increasing(held),
        forall|i: int| 0 <= i < held.len() ==> expected <= (#[trigger] held[i]).nonce,
    ensures
        ({
            let d = drained(expected, held);
            &&& increasing(d.held)
            &&& forall|i: int| 0 <= i < d.held.len() ==> d.expected < (#[trigger] d.held[i]).nonce
            &&& d.held.len() <= held.len()
            &&& d.expected >= expected
        }),
{
    packets_leave_in_order(expected, held);
    let d = drained(expected, held);
    let n = d.items.len() as int;
    assert forall|i: int, j: int| 0 <= i < j < d.held.len() implies (#[trigger] d.held[i]).nonce < (
    #[trigger] d.held[j]).nonce by {
        assert(held[n + i].nonce < held[n + j].nonce);
    }
    assert forall|i: int| 0 <= i < d.held.len() implies d.expected < (#[trigger] d.held[i]).nonce by {
        if n > 0 {
            assert(d.items[n - 1] == held[n - 1].item);
            assert(held[n - 1].nonce < held[n + i].nonce);
        }
        if i > 0 {
            assert(d.held[0] == held[n]);
            assert(held[n].nonce < held[n + i].nonce);
        }
        if n == 0 {
            assert(expected <= held[n].nonce);
        }
    }
}

proof fn lemma_slot(held: Seq<Waiting>, n: u64)
    requires
        increasing(held),
    ensures
        0 <= slot(held, n) <= held.len(),
        forall|i: int| 0 <= i < slot(held, n) ==> (#[trigger] held[i]).nonce < n,
        forall|i: int| slot(held, n) <= i < held.len() ==> (#[trigger] held[i]).nonce >= n,
    decreases held.len(),
{
    if held.len() > 0 && held[0].nonce < n {
        let rest = held.drop_first();
        assert forall|i: int, j: int| 0 <= i < j < rest.len() implies (#[trigger] rest[i]).nonce < (
        #[trigger] rest[j]).nonce by {
            assert(held[i + 1].nonce < held[j + 1].nonce);
        }
        lemma_slot(rest, n);
        assert forall|i: int| 0 <= i < slot(held, n) implies (#[trigger] held[i]).nonce < n by {
            if i > 0 {
                assert(rest[i - 1] == held[i]);
            }
        }
        assert forall|i: int| slot(held, n) <= i < held.len() implies (#[trigger] held[i]).nonce >= n by {
            assert(rest[i - 1] == held[i]);
        }
    } else if held.len() > 0 {
        assert forall|i: int| 0 <= i < held.len() implies (#[trigger] held[i]).nonce >= n by {
            if i > 0 {
                assert(held[0].nonce < held[i].nonce);
            }
        }
    }
}

/// Taking a packet keeps the waiting packets in order, beyond the expected
/// number and within their limit; the expected number never falls.
pub proof fn taking_keeps_the_window(s: Receiving, nonce: u64, item: Item, now: int)
    requires
        s.wf(),
        nonce >= s.expected,
    ensures
        s.taken(nonce, item, now).0.wf(),
        s.taken(nonce, item, now).0.expected >= s.expected,
{
    if nonce == s.expected {
        if nonce != u64::MAX {
            lemma_drained_wf((nonce + 1) as u64, s.held);
        }
    } else if s.held.len() < s.max_held {
        lemma_slot(s.held, nonce);
        let w = Waiting { nonce, item };
        let h = with_held(s.held, w);
        let p = slot(s.held, nonce);
        assert forall|i: int, j: int| 0 <= i < j < h.len() implies (#[trigger] h[i]).nonce < (
        #[trigger] h[j]).nonce by {
            if p < s.held.len() && s.held[p].nonce == nonce {
                assert(s.held[i].nonce < s.held[j].nonce);
            } else {
                let a = if i < p {
                    i
                } else {
                    i - 1
                };
                let b = if j < p {
                    j
                } else {
                    j - 1
                };
                if i != p && j != p {
                    assert(s.held[a].nonce < s.held[b].nonce);
                    assert(h[i] == s.held[a]);
                    assert(h[j] == s.held[b]);
                } else if i == p {
                    assert(h[j] == s.held[b]);
                    assert(s.held[p].nonce > nonce);
                    if b > p {
                        assert(s.held[p].nonce < s.held[b].nonce);
                    }
                } else {
                    assert(h[i] == s.held[a]);
                }
            }
        }
        assert forall|i: int| 0 <= i < h.len() implies s.expected < (#[trigger] h[i]).nonce by {
            if p < s.held.len() && s.held[p].nonce == nonce {
                if i != p {
                    assert(h[i] == s.held[i]);
                }
            } else if i < p {
                assert(h[i] == s.held[i]);
            } else if i > p {
                assert(h[i] == s.held[i - 1]);
            }
        }
    }
}

/// Giving packets up keeps the waiting packets in order, beyond the expected
/// number and within their limit. A stalled side always moves: it delivers at
/// least one packet.
pub proof fn recovery_keeps_the_window(s: Receiving, timeout: int, now: int)
    requires
        s.wf(),
    ensures
        s.recovered(timeout, now).0.wf(),
        s.recovered(timeout, now).0.expected >= s.expected,
        s.stalled(timeout, now) <==> s.recovered(timeout, now).1.len() > 0,
{
    if s.stalled(timeout, now) {
        let e = s.held[0].nonce;
        assert forall|i: int| 0 <= i < s.held.len() implies e <= (#[trigger] s.held[i]).nonce by {
            if i > 0 {
                assert(s.held[0].nonce < s.held[i].nonce);
            }
        }
        lemma_drained_wf(e, s.held);
        packets_leave_in_order(e, s.held);
        assert(drained(e, s.held).items.len() > 0);
    }
}

/// Authentication moves nothing but the highest number, which never falls.
pub proof fn authentication_only_raises_the_highest(s: Receiving, nonce: u64)
    ensures
        ({
            let t = s.authenticated(nonce);
            &&& t == (Receiving { highest: t.highest, ..s })
            &&& t.highest matches Some(h) && h >= nonce
            &&& s.highest matches Some(g) ==> t.highest->0 >= g
            &&& t.highest != s.highest <==> (s.highest matches Some(g) ==> g < nonce)
        }),
{
}

/// The packet that was waited for is handed on at once, and behind it those that waited for it;
/// any other is kept, where there is room, and nothing is handed on.
pub proof fn the_expected_packet_comes_first(r: Receiving, nonce: u64, item: Item, now: int)
    requires
        r.wf(),
    ensures
        nonce == r.expected && nonce < u64::MAX && r.held.len() == 0 ==> r.taken(nonce, item, now).1 == Some(seq![item])
            && r.taken(nonce, item, now).0.expected == nonce + 1,
        nonce == r.expected && nonce < u64::MAX ==> (r.taken(nonce, item, now).1 matches Some(items) ==> items.len() > 0
            && items[0] == item),
        nonce == r.expected && nonce < u64::MAX - 1 && r.held.len() > 0 && r.held[0].nonce == nonce + 1 ==> (r.taken(
            nonce,
            item,
            now,
        ).1 matches Some(items) ==> items.len() > 1 && items[1] == r.held[0].item),
        nonce != r.expected ==> r.taken(nonce, item, now).1 == Some(Seq::<Item>::empty()) && r.taken(nonce, item, now).0.expected
            == r.expected,
{
    if nonce == r.expected && nonce < u64::MAX {
        let e = (nonce + 1) as u64;
        let d = drained(e, r.held);
        if r.held.len() == 0 {
            assert(seq![item] + d.items =~= seq![item]);
        } else if r.held[0].nonce == e && e < u64::MAX {
            let f = drained((e + 1) as u64, r.held.drop_first());
            assert(d.items == seq![r.held[0].item] + f.items);
            assert((seq![item] + d.items)[1] == d.items[0]);
        }
    }
}

} // verus!
