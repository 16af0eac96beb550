//! Answers that are kept.

use vstd::prelude::*;

use crate::bytes::copy_of;
use crate::dns::wire::{dns_answer, least, read_answers, record_ttls, refresh, refreshed, shortest};
use crate::table::{Key, Table};
use crate::text::{owned, same_str};
use crate::time::Instant;

verus! {

/// What an answer is kept under: a name and the number of a type.
#[derive(Debug, Clone)]
pub struct CacheKey {
    pub name: String,
    pub qtype: u16,
}

impl Key for CacheKey {
    type Id = (Seq<char>, u16);

    open spec fn id(&self) -> (Seq<char>, u16) {
        (self.name@, self.qtype)
    }

    fn same(&self, other: &Self) -> (r: bool) {
        self.qtype == other.qtype && same_str(&self.name, &other.name)
    }

    fn duplicate(&self) -> (r: Self) {
        CacheKey { name: owned(&self.name), qtype: self.qtype }
    }
}

struct CacheEntry {
    answer: Vec<u8>,
    stored: Instant,
    ttl: u32,
}

/// An answer that is kept, since when, and for how many seconds.
#[verifier::ext_equal]
pub struct Kept {
    pub answer: Seq<u8>,
    pub stored: Instant,
    pub ttl: u32,
}

impl View for CacheEntry {
    type V = Kept;

    closed spec fn view(&self) -> Kept {
        Kept { answer: self.answer@, stored: self.stored, ttl: self.ttl }
    }
}

/// Answers by name and type.
pub type Answered = Map<(Seq<char>, u16), Kept>;

impl Kept {
    /// The whole seconds that it has been kept for.
    pub open spec fn age(self, now: Instant) -> int {
        now.spec_since(self.stored).nanos as int / 1_000_000_000
    }

    /// It is kept for no longer than it lives.
    pub open spec fn fresh(self, now: Instant) -> bool {
        self.age(now) < self.ttl
    }
}

/// The answer that is kept for a question, with the number of the query and with
/// its times counted down.
pub open spec fn kept_answer(c: Answered, name: Seq<char>, qtype: u16, id: u16, now: Instant) -> Option<Seq<u8>> {
    if c.contains_key((name, qtype)) {
        let e = c[(name, qtype)];
        let age = (e.age(now) % 0x1_0000_0000) as u32;
        if age < e.ttl {
            Some(refreshed(e.answer, id, age))
        } else {
            None
        }
    } else {
        None
    }
}

/// Whether an answer says that a name has, or has not, an answer.
pub open spec fn conclusive(answer: Seq<u8>) -> bool {
    answer.len() > 3 && (answer[3] % 16 == 0 || answer[3] % 16 == 3)
}

/// How long an answer is kept: as long as its records live, within two bounds.
pub open spec fn lifetime(answer: Seq<u8>, least: u32, most: u32) -> u32 {
    let t = match dns_answer(answer) {
        Some(a) => match shortest(a) {
            Some(t) => t,
            None => least,
        },
        None => least,
    };
    if t < least {
        least
    } else if t > most {
        most
    } else {
        t
    }
}

/// The answers that still live.
pub open spec fn live(c: Answered, now: Instant) -> Answered {
    c.restrict(Set::new(|k: (Seq<char>, u16)| c.contains_key(k) && c[k].fresh(now)))
}

/// Room for one more: where there are `size` answers, those that do not live any
/// more go; where that is not enough, one of the others does.
pub open spec fn makes_room(c: Answered, size: int, now: Instant, after: Answered) -> bool {
    if c.dom().len() < size {
        after == c
    } else if live(c, now).dom().len() < size {
        after == live(c, now)
    } else {
        exists|k: (Seq<char>, u16)| #[trigger] live(c, now).contains_key(k) && after == live(c, now).remove(k)
    }
}

/// An answer is kept, where it is conclusive and answers are kept at all.
pub open spec fn keeps(
    c: Answered,
    key: (Seq<char>, u16),
    answer: Seq<u8>,
    size: int,
    least: u32,
    most: u32,
    now: Instant,
    after: Answered,
) -> bool {
    if size > 0 && conclusive(answer) {
        exists|room: Answered| #[trigger]
            makes_room(c, size, now, room) && after == room.insert(
                key,
                Kept { answer, stored: now, ttl: lifetime(answer, least, most) },
            )
    } else {
        after == c
    }
}

/// Answers that are kept.
pub struct Cache {
    entries: Table<CacheKey, CacheEntry>,
}

impl View for Cache {
    type V = Answered;

    closed spec fn view(&self) -> Answered {
        self.entries@.map_values(|e: CacheEntry| e@)
    }
}

impl Cache {
    pub closed spec fn wf(&self) -> bool {
        self.entries.wf() && forall|k: (Seq<char>, u16)| #[trigger]
            self.entries@.contains_key(k) ==> self.entries@[k].answer@.len() > 3
    }

    pub fn new() -> (r: Self)
        ensures
            r.wf(),
            r@ == Answered::empty(),
    {
        let r = Cache { entries: Table::new() };
        assert(r@ =~= Answered::empty());
        r
    }

    /// The answer that is kept for a question.
    pub fn get(&self, name: &str, qtype: u16, id: u16, now: Instant) -> (r: Option<Vec<u8>>)
        requires
            self.wf(),
        ensures
            match r {
                Some(a) => kept_answer(self@, name@, qtype, id, now) == Some(a@),
                None => kept_answer(self@, name@, qtype, id, now) is None,
            },
    {
        let k = CacheKey { name: owned(name), qtype };
        match self.entries.get(&k) {
            Some(e) => {
                assert(self.entries@.contains_key(k.id()));
                assert(self@[k.id()] == e@);
                let age: u32 = (now.duration_since(e.stored).as_secs() % 0x1_0000_0000) as u32;
                if age < e.ttl {
                    Some(refresh(&e.answer, id, age))
                } else {
                    None
                }
            },
            None => None,
        }
    }

    /// Keeps an answer, where it is conclusive and answers are kept at all.
    pub fn put(&mut self, name: &str, qtype: u16, answer: &[u8], size: usize, least: u32, most: u32, now: Instant)
        requires
            old(self).wf(),
        ensures
            final(self).wf(),
            keeps(old(self)@, (name@, qtype), answer@, size as int, least, most, now, final(self)@),
    {
        if size == 0 || answer.len() <= 3 || (answer[3] % 16 != 0 && answer[3] % 16 != 3) {
            return;
        }
        let shortest = match read_answers(answer) {
            Some(a) => a.min_ttl(),
            None => None,
        };
        let t: u32 = match shortest {
            Some(t) => t,
            None => least,
        };
        let ttl: u32 = if t < least {
            least
        } else if t > most {
            most
        } else {
            t
        };
        assert(ttl == lifetime(answer@, least, most));
        let ghost start = self@;
        self.make_room(size, now);
        let ghost room = self@;
        let ghost kept = Kept { answer: answer@, stored: now, ttl };
        let k = CacheKey { name: owned(name), qtype };
        let e = CacheEntry { answer: copy_of(answer), stored: now, ttl };
        assert(e@ =~= kept);
        let ghost id = k.id();
        let _ = self.entries.insert(k, e);
        assert(self@ =~= room.insert(id, kept));
        assert(makes_room(start, size as int, now, room));
    }

    fn make_room(&mut self, size: usize, now: Instant)
        requires
            old(self).wf(),
            size > 0,
        ensures
            final(self).wf(),
            makes_room(old(self)@, size as int, now, final(self)@),
    {
        assert(self@.dom() =~= self.entries@.dom());
        if self.entries.len() < size {
            return;
        }
        let ghost start = self@;
        self.drop_stale(now);
        assert(self@.dom() =~= self.entries@.dom());
        if self.entries.len() < size {
            return;
        }
        let ghost before = self@;
        let ghost all = self.entries@;
        let (k, _) = self.entries.remove_at(0);
        assert(all.contains_key(k.id()));
        assert(self@ =~= before.remove(k.id()));
        assert(live(start, now).contains_key(k.id()));
    }

    fn drop_stale(&mut self, now: Instant)
        requires
            old(self).wf(),
        ensures
            final(self).wf(),
            final(self)@ == live(old(self)@, now),
    {
        let ghost start = self@;
        let mut all: Table<CacheKey, CacheEntry> = Table::new();
        std::mem::swap(&mut all, &mut self.entries);
        let ghost source = all@;
        let mut kept: Table<CacheKey, CacheEntry> = Table::new();
        while all.len() > 0
            invariant
                all.wf(),
                kept.wf(),
                forall|p: (Seq<char>, u16)| #[trigger] source.contains_key(p) ==> source[p].answer@.len() > 3,
                forall|p: (Seq<char>, u16)| #[trigger]
                    all@.contains_key(p) ==> source.contains_key(p) && all@[p] == source[p],
                forall|p: (Seq<char>, u16)| #[trigger]
                    kept@.contains_key(p) <==> source.contains_key(p) && !all@.contains_key(p) && source[p]@.fresh(now),
                forall|p: (Seq<char>, u16)| #[trigger] kept@.contains_key(p) ==> kept@[p] == source[p],
            decreases all.pairs().len(),
        {
            let ghost before = all@;
            let (k, v) = all.pop().unwrap();
            assert(before.contains_key(k.id()));
            if now.duration_since(v.stored).as_secs() < v.ttl as u64 {
                kept.push_new(k, v);
            }
        }
        proof {
            crate::table::lemma_map_of(all.pairs());
            crate::table::lemma_table_view(all);
            assert forall|p: (Seq<char>, u16)| !all@.contains_key(p) by {}
            assert forall|p: (Seq<char>, u16)| #[trigger] kept@.contains_key(p) implies kept@[p].answer@.len() > 3 by {
                assert(source.contains_key(p));
            }
        }
        self.entries = kept;
        assert(self@ =~= live(start, now));
    }

    /// Forgets all answers.
    pub fn clear(&mut self)
        ensures
            final(self).wf(),
            final(self)@ == Answered::empty(),
    {
        self.entries = Table::new();
        assert(self@ =~= Answered::empty());
    }
}

// ── Laws ─────────────────────────────────────────────────────────────────────

/// An answer that was kept is given again while it lives, and not after.
pub proof fn kept_answers_are_given_while_they_live(
    c: Answered,
    key: (Seq<char>, u16),
    answer: Seq<u8>,
    size: int,
    least: u32,
    most: u32,
    now: Instant,
    after: Answered,
    id: u16,
    later: Instant,
)
    requires
        keeps(c, key, answer, size, least, most, now, after),
        size > 0,
        conclusive(answer),
        now.nanos <= later.nanos,
        later.nanos - now.nanos < 0x1_0000_0000 * 1_000_000_000,
    ensures
        ({
            let age = (later.nanos - now.nanos) / 1_000_000_000;
            kept_answer(after, key.0, key.1, id, later) == if age < lifetime(answer, least, most) {
                Some(refreshed(answer, id, age as u32))
            } else {
                None
            }
        }),
{
    let room = choose|room: Answered| #[trigger]
        makes_room(c, size, now, room) && after == room.insert(
            key,
            Kept { answer, stored: now, ttl: lifetime(answer, least, most) },
        );
    assert(after.contains_key(key));
    assert(key == (key.0, key.1));
}

proof fn lemma_least(so_far: Option<u32>, v: Seq<u32>)
    ensures
        match least(so_far, v) {
            Some(m) => (so_far == Some(m) || v.contains(m)) && (so_far matches Some(s) ==> m <= s) && forall|i: int|
                0 <= i < v.len() ==> m <= #[trigger] v[i],
            None => so_far is None && v.len() == 0,
        },
    decreases v.len(),
{
    if v.len() > 0 {
        let d = v.drop_last();
        lemma_least(so_far, d);
        let m = least(so_far, v)->Some_0;
        assert(v[v.len() - 1] == v.last());
        assert(forall|i: int| 0 <= i < d.len() ==> d[i] == v[i]);
        if so_far != Some(m) {
            if d.contains(m) {
                let i = choose|i: int| 0 <= i < d.len() && d[i] == m;
                assert(v[i] == m);
            } else {
                assert(v[v.len() - 1] == m);
            }
        }
    }
}

/// Whether `t` is the shortest time to live among the records of an answer and those about its
/// name servers.
pub open spec fn lives_for(answer: Seq<u8>, t: u32) -> bool {
    dns_answer(answer) matches Some(a) && {
        &&& (exists|i: int| 0 <= i < a.0.len() && (#[trigger] a.0[i]).0 == t) || (exists|i: int|
            0 <= i < a.1.len() && #[trigger] a.1[i] == t)
        &&& forall|i: int| 0 <= i < a.0.len() ==> t <= (#[trigger] a.0[i]).0
        &&& forall|i: int| 0 <= i < a.1.len() ==> t <= #[trigger] a.1[i]
    }
}

proof fn lemma_lives_for(answer: Seq<u8>, t: u32)
    requires
        lives_for(answer, t),
    ensures
        shortest(dns_answer(answer)->Some_0) == Some(t),
{
    let a = dns_answer(answer)->Some_0;
    let r = record_ttls(a.0);
    lemma_least(None, r);
    lemma_least(least(None, r), a.1);
    assert(forall|i: int| 0 <= i < a.0.len() ==> r[i] == a.0[i].0);
    if exists|i: int| 0 <= i < a.0.len() && (#[trigger] a.0[i]).0 == t {
        let i = choose|i: int| 0 <= i < a.0.len() && (#[trigger] a.0[i]).0 == t;
        assert(r[i] == t);
    }
    let m = shortest(a)->Some_0;
    assert(shortest(a) is Some);
    assert(m >= t) by {
        if a.1.contains(m) {
            let i = choose|i: int| 0 <= i < a.1.len() && a.1[i] == m;
        } else {
            let i = choose|i: int| 0 <= i < r.len() && r[i] == m;
            assert(a.0[i].0 == m);
        }
    }
}

/// An answer is given from the cache for as long as the shortest-lived of its records lives,
/// counted from the moment when it was kept, and not from then on. Records that live shorter
/// or longer than answers may be kept are taken to live for the least or the longest time; an
/// answer without records is kept for the least time.
pub proof fn answers_live_as_long_as_their_records(
    c: Answered,
    key: (Seq<char>, u16),
    answer: Seq<u8>,
    size: int,
    least: u32,
    most: u32,
    now: Instant,
    after: Answered,
    t: u32,
    id: u16,
    later: Instant,
)
    requires
        keeps(c, key, answer, size, least, most, now, after),
        size > 0,
        answer.len() > 3,
        answer[3] % 16 == 0 || answer[3] % 16 == 3,
        least <= most,
        now.nanos <= later.nanos,
        later.nanos - now.nanos < 0x1_0000_0000 * 1_000_000_000,
    ensures
        lives_for(answer, t) && least <= t <= most ==> (kept_answer(after, key.0, key.1, id, later) is Some
            <==> later.nanos - now.nanos < t * 1_000_000_000),
        lives_for(answer, t) && t < least ==> (kept_answer(after, key.0, key.1, id, later) is Some <==> later.nanos
            - now.nanos < least * 1_000_000_000),
        lives_for(answer, t) && t > most ==> (kept_answer(after, key.0, key.1, id, later) is Some <==> later.nanos
            - now.nanos < most * 1_000_000_000),
        (dns_answer(answer) matches Some(a) ==> a.0.len() == 0 && a.1.len() == 0) ==> (kept_answer(
            after,
            key.0,
            key.1,
            id,
            later,
        ) is Some <==> later.nanos - now.nanos < least * 1_000_000_000),
        forall|other: (Seq<char>, u16)| other != key && #[trigger] after.contains_key(other) ==> c.contains_key(other)
            && after[other] == c[other],
{
    kept_answers_are_given_while_they_live(c, key, answer, size, least, most, now, after, id, later);
    if lives_for(answer, t) {
        lemma_lives_for(answer, t);
    }
    if let Some(a) = dns_answer(answer) {
        if a.0.len() == 0 && a.1.len() == 0 {
            assert(record_ttls(a.0).len() == 0);
        }
    }
    let room = choose|room: Answered| #[trigger]
        makes_room(c, size, now, room) && after == room.insert(
            key,
            Kept { answer, stored: now, ttl: lifetime(answer, least, most) },
        );
}

/// An answer that says neither that a name has an answer nor that there is no such name is not
/// kept, nor is any where none may be.
pub proof fn failures_are_not_kept(
    c: Answered,
    key: (Seq<char>, u16),
    answer: Seq<u8>,
    size: int,
    least: u32,
    most: u32,
    now: Instant,
    after: Answered,
)
    requires
        keeps(c, key, answer, size, least, most, now, after),
        size <= 0 || answer.len() <= 3 || (answer[3] % 16 != 0 && answer[3] % 16 != 3),
    ensures
        after == c,
{
}

/// No more answers are kept than there may be.
pub proof fn the_cache_stays_within_its_size(
    c: Answered,
    key: (Seq<char>, u16),
    answer: Seq<u8>,
    size: int,
    least: u32,
    most: u32,
    now: Instant,
    after: Answered,
)
    requires
        c.dom().finite(),
        size > 0,
        c.dom().len() <= size,
        keeps(c, key, answer, size, least, most, now, after),
    ensures
        after.dom().len() <= size,
{
    if conclusive(answer) {
        let room = choose|room: Answered| #[trigger]
            makes_room(c, size, now, room) && after == room.insert(
                key,
                Kept { answer, stored: now, ttl: lifetime(answer, least, most) },
            );
        let alive = live(c, now);
        assert(alive.dom() =~= c.dom().filter(|k: (Seq<char>, u16)| c[k].fresh(now)));
        c.dom().lemma_len_filter(|k: (Seq<char>, u16)| c[k].fresh(now));
        assert(room.dom().finite() && room.dom().len() < size) by {
            if c.dom().len() < size {
            } else if alive.dom().len() < size {
            } else {
                let k = choose|k: (Seq<char>, u16)| #[trigger] alive.contains_key(k) && room == alive.remove(k);
                assert(room.dom() =~= alive.dom().remove(k));
            }
        }
        assert(after.dom() =~= room.dom().insert(key));
    }
}

} // verus!
