//! What became of the queries: a log of the latest ones, and counters.

use std::collections::VecDeque;

use vstd::prelude::*;

use crate::server::users::wrapped;
use crate::table::Table;
use crate::text::{
    chars_of, comes_before, contains, holds, lemma_text_less_transitive, lemma_text_order, owned, text_less,
};

verus! {

/// What happened to a query.
#[derive(Debug, Clone, Copy, PartialEq, Eq, Structural)]
pub enum Outcome {
    Allowed,
    Cached,
    Blocked,
    BlockedService,
    SafeSearch,
    Rewritten,
    /// The filter is off; the query was answered to keep it inside.
    Forwarded,
    Failed,
}

#[derive(Debug, Clone)]
pub struct LogEntry {
    /// Milliseconds since the Unix epoch.
    pub time: u64,
    pub client: String,
    pub name: String,
    pub qtype: String,
    pub outcome: Outcome,
    pub rule: Option<String>,
    pub source: Option<String>,
    pub upstream: Option<String>,
    pub elapsed_ms: u64,
}

/// What the log says of a query.
#[verifier::ext_equal]
pub struct Noted {
    pub time: u64,
    pub client: Seq<char>,
    pub name: Seq<char>,
    pub qtype: Seq<char>,
    pub outcome: Outcome,
    pub rule: Option<Seq<char>>,
    pub source: Option<Seq<char>>,
    pub upstream: Option<Seq<char>>,
    pub elapsed_ms: u64,
}

pub open spec fn opt(s: Option<String>) -> Option<Seq<char>> {
    match s {
        Some(t) => Some(t@),
        None => None,
    }
}

fn copy_opt(s: &Option<String>) -> (r: Option<String>)
    ensures
        opt(r) == opt(*s),
{
    match s {
        Some(t) => Some(owned(t)),
        None => None,
    }
}

impl View for LogEntry {
    type V = Noted;

    open spec fn view(&self) -> Noted {
        Noted {
            time: self.time,
            client: self.client@,
            name: self.name@,
            qtype: self.qtype@,
            outcome: self.outcome,
            rule: opt(self.rule),
            source: opt(self.source),
            upstream: opt(self.upstream),
            elapsed_ms: self.elapsed_ms,
        }
    }
}

impl LogEntry {
    fn duplicate(&self) -> (r: Self)
        ensures
            r@ == self@,
    {
        LogEntry {
            time: self.time,
            client: owned(&self.client),
            name: owned(&self.name),
            qtype: owned(&self.qtype),
            outcome: self.outcome,
            rule: copy_opt(&self.rule),
            source: copy_opt(&self.source),
            upstream: copy_opt(&self.upstream),
            elapsed_ms: self.elapsed_ms,
        }
    }
}

// ── Counters ─────────────────────────────────────────────────────────────────

/// Most names that are counted one by one.
pub const TOP_CAP: usize = 5000;

#[verifier::ext_equal]
pub struct Tally {
    pub total: u64,
    pub blocked: u64,
    pub rewritten: u64,
    pub cached: u64,
    pub failed: u64,
    pub upstream_ms_sum: u64,
    pub upstream_count: u64,
    pub domains: Map<Seq<char>, u64>,
    pub blocked_domains: Map<Seq<char>, u64>,
    pub clients: Map<Seq<char>, u64>,
}

/// One more of a key; a new one where there is room.
pub open spec fn bumped(m: Map<Seq<char>, u64>, key: Seq<char>) -> Map<Seq<char>, u64> {
    if m.contains_key(key) {
        m.insert(key, wrapped(m[key] + 1))
    } else if m.dom().len() < TOP_CAP {
        m.insert(key, 1)
    } else {
        m
    }
}

pub open spec fn one_more(n: u64, yes: bool) -> u64 {
    if yes {
        wrapped(n + 1)
    } else {
        n
    }
}

impl Tally {
    pub open spec fn empty() -> Tally {
        Tally {
            total: 0,
            blocked: 0,
            rewritten: 0,
            cached: 0,
            failed: 0,
            upstream_ms_sum: 0,
            upstream_count: 0,
            domains: Map::empty(),
            blocked_domains: Map::empty(),
            clients: Map::empty(),
        }
    }

    /// With a query, and how long the upstream took for it.
    pub open spec fn counted(self, e: Noted, upstream_ms: Option<u64>) -> Tally {
        let blocked = e.outcome == Outcome::Blocked || e.outcome == Outcome::BlockedService;
        Tally {
            total: wrapped(self.total + 1),
            blocked: one_more(self.blocked, blocked),
            rewritten: one_more(self.rewritten, e.outcome == Outcome::Rewritten || e.outcome == Outcome::SafeSearch),
            cached: one_more(self.cached, e.outcome == Outcome::Cached),
            failed: one_more(self.failed, e.outcome == Outcome::Failed),
            upstream_ms_sum: match upstream_ms {
                Some(ms) => wrapped(self.upstream_ms_sum + ms),
                None => self.upstream_ms_sum,
            },
            upstream_count: one_more(self.upstream_count, upstream_ms is Some),
            domains: bumped(self.domains, e.name),
            blocked_domains: if blocked {
                bumped(self.blocked_domains, e.name)
            } else {
                self.blocked_domains
            },
            clients: bumped(self.clients, e.client),
        }
    }
}

struct Counters {
    total: u64,
    blocked: u64,
    rewritten: u64,
    cached: u64,
    failed: u64,
    upstream_ms_sum: u64,
    upstream_count: u64,
    domains: Table<String, u64>,
    blocked_domains: Table<String, u64>,
    clients: Table<String, u64>,
}

impl View for Counters {
    type V = Tally;

    closed spec fn view(&self) -> Tally {
        Tally {
            total: self.total,
            blocked: self.blocked,
            rewritten: self.rewritten,
            cached: self.cached,
            failed: self.failed,
            upstream_ms_sum: self.upstream_ms_sum,
            upstream_count: self.upstream_count,
            domains: self.domains@,
            blocked_domains: self.blocked_domains@,
            clients: self.clients@,
        }
    }
}

fn bump(m: &mut Table<String, u64>, key: &String)
    requires
        old(m).wf(),
    ensures
        final(m).wf(),
        final(m)@ == bumped(old(m)@, key@),
{
    let found = match m.get(key) {
        Some(v) => Some(*v),
        None => None,
    };
    match found {
        Some(v) => {
            let _ = m.insert(owned(key), v.wrapping_add(1));
        },
        None => {
            if m.len() < TOP_CAP {
                let _ = m.insert(owned(key), 1);
            }
        },
    }
}

impl Counters {
    spec fn wf(&self) -> bool {
        self.domains.wf() && self.blocked_domains.wf() && self.clients.wf()
    }

    fn new() -> (r: Self)
        ensures
            r.wf(),
            r@ == Tally::empty(),
    {
        Counters {
            total: 0,
            blocked: 0,
            rewritten: 0,
            cached: 0,
            failed: 0,
            upstream_ms_sum: 0,
            upstream_count: 0,
            domains: Table::new(),
            blocked_domains: Table::new(),
            clients: Table::new(),
        }
    }

    fn count(&mut self, e: &LogEntry, upstream_ms: Option<u64>)
        requires
            old(self).wf(),
        ensures
            final(self).wf(),
            final(self)@ == old(self)@.counted(e@, upstream_ms),
    {
        self.total = self.total.wrapping_add(1);
        match e.outcome {
            Outcome::Blocked | Outcome::BlockedService => {
                self.blocked = self.blocked.wrapping_add(1);
                bump(&mut self.blocked_domains, &e.name);
            },
            Outcome::Rewritten | Outcome::SafeSearch => {
                self.rewritten = self.rewritten.wrapping_add(1);
            },
            Outcome::Cached => {
                self.cached = self.cached.wrapping_add(1);
            },
            Outcome::Failed => {
                self.failed = self.failed.wrapping_add(1);
            },
            Outcome::Allowed | Outcome::Forwarded => {},
        }
        if let Some(ms) = upstream_ms {
            self.upstream_ms_sum = self.upstream_ms_sum.wrapping_add(ms);
            self.upstream_count = self.upstream_count.wrapping_add(1);
        }
        bump(&mut self.domains, &e.name);
        bump(&mut self.clients, &e.client);
        assert(self@ =~= old(self)@.counted(e@, upstream_ms));
    }
}

// ── The most frequent ────────────────────────────────────────────────────────

/// The greater count comes first, and of equal ones the earlier name.
pub open spec fn ranks(a: (Seq<char>, u64), b: (Seq<char>, u64)) -> bool {
    a.1 > b.1 || (a.1 == b.1 && text_less(a.0, b.0))
}

proof fn lemma_ranks(a: (Seq<char>, u64), b: (Seq<char>, u64))
    ensures
        a.0 != b.0 ==> ranks(a, b) != ranks(b, a),
{
    lemma_text_order(a.0, b.0);
}

proof fn lemma_ranks_transitive(a: (Seq<char>, u64), b: (Seq<char>, u64), c: (Seq<char>, u64))
    requires
        ranks(a, b),
        ranks(b, c),
    ensures
        ranks(a, c),
{
    if a.1 == b.1 && b.1 == c.1 {
        lemma_text_less_transitive(a.0, b.0, c.0);
    }
}

pub open spec fn count_views(v: Seq<(String, u64)>) -> Seq<(Seq<char>, u64)> {
    Seq::new(v.len(), |i: int| (v[i].0@, v[i].1))
}

/// The `n` most frequent, the most frequent first.
pub open spec fn is_top(m: Map<Seq<char>, u64>, n: int, v: Seq<(Seq<char>, u64)>) -> bool {
    &&& v.len() == if m.dom().len() < n {
        m.dom().len() as int
    } else {
        n
    }
    &&& forall|i: int| 0 <= i < v.len() ==> m.contains_pair((#[trigger] v[i]).0, v[i].1)
    &&& forall|i: int, j: int| 0 <= i < j < v.len() ==> ranks(#[trigger] v[i], #[trigger] v[j])
    &&& forall|k: Seq<char>, i: int|
        #![trigger m.contains_key(k), v[i]]
        m.contains_key(k) && 0 <= i < v.len() && (forall|j: int| 0 <= j < v.len() ==> (#[trigger] v[j]).0 != k)
            ==> ranks(v[i], (k, m[k]))
}

fn best_of(t: &Table<String, u64>) -> (r: usize)
    requires
        t.wf(),
        t.pairs().len() > 0,
    ensures
        r < t.pairs().len(),
        forall|j: int|
            0 <= j < t.pairs().len() && j != r ==> ranks(t.pairs()[r as int], #[trigger] t.pairs()[j]),
{
    let n: usize = t.len();
    let mut best: usize = 0;
    let mut i: usize = 1;
    while i < n
        invariant
            t.wf(),
            n == t.pairs().len(),
            best < i <= n,
            forall|j: int| 0 <= j < i && j != best ==> ranks(t.pairs()[best as int], #[trigger] t.pairs()[j]),
        decreases n - i,
    {
        let a = *t.value_at(i);
        let b = *t.value_at(best);
        let first = a > b || (a == b && comes_before(&chars_of(t.key_at(i)), &chars_of(t.key_at(best))));
        let ghost p = t.pairs();
        assert(first == ranks(p[i as int], p[best as int]));
        if first {
            assert forall|j: int| 0 <= j < i + 1 && j != i implies ranks(p[i as int], #[trigger] p[j]) by {
                if j != best {
                    lemma_ranks_transitive(p[i as int], p[best as int], p[j]);
                }
            }
            best = i;
        } else {
            proof {
                lemma_ranks(p[i as int], p[best as int]);
            }
        }
        i += 1;
    }
    best
}

fn copied(t: &Table<String, u64>) -> (r: Table<String, u64>)
    requires
        t.wf(),
    ensures
        r.wf(),
        r@ == t@,
        r.pairs() == t.pairs(),
{
    let n: usize = t.len();
    let mut out: Table<String, u64> = Table::new();
    let mut i: usize = 0;
    while i < n
        invariant
            t.wf(),
            out.wf(),
            n == t.pairs().len(),
            i <= n,
            out.pairs() == t.pairs().subrange(0, i as int),
        decreases n - i,
    {
        let k = owned(t.key_at(i));
        proof {
            crate::table::lemma_map_of(out.pairs());
            crate::table::lemma_table_view(out);
            if out@.contains_key(k@) {
                let j = choose|j: int| 0 <= j < out.pairs().len() && (#[trigger] out.pairs()[j]).0 == k@;
                assert(t.pairs()[j].0 == t.pairs()[i as int].0);
            }
        }
        out.push_new(k, *t.value_at(i));
        assert(out.pairs() =~= t.pairs().subrange(0, i + 1));
        i += 1;
    }
    assert(out.pairs() =~= t.pairs());
    proof {
        crate::table::lemma_table_view(out);
        crate::table::lemma_table_view(*t);
    }
    out
}

/// The `n` most frequent, the most frequent first.
fn top(t: &Table<String, u64>, n: usize) -> (r: Vec<(String, u64)>)
    requires
        t.wf(),
    ensures
        is_top(t@, n as int, count_views(r@)),
{
    let ghost m = t@;
    let mut rest = copied(t);
    let size: usize = rest.len();
    let mut out: Vec<(String, u64)> = Vec::new();
    while out.len() < n && rest.len() > 0
        invariant
            rest.wf(),
            m == t@,
            m.dom().len() == size,
            m.dom().finite(),
            out@.len() <= n,
            out@.len() + rest.pairs().len() == size,
            forall|k: Seq<char>| #[trigger] rest@.contains_key(k) ==> m.contains_key(k) && m[k] == rest@[k],
            forall|k: Seq<char>| #[trigger]
                m.contains_key(k) ==> rest@.contains_key(k) || exists|j: int|
                    0 <= j < out@.len() && (#[trigger] count_views(out@)[j]).0 == k,
            forall|i: int|
                0 <= i < out@.len() ==> m.contains_pair((#[trigger] count_views(out@)[i]).0, count_views(out@)[i].1)
                    && !rest@.contains_key(count_views(out@)[i].0),
            forall|i: int, j: int|
                0 <= i < j < out@.len() ==> ranks(#[trigger] count_views(out@)[i], #[trigger] count_views(out@)[j]),
            forall|i: int, k: Seq<char>|
                #![trigger count_views(out@)[i], rest@.contains_key(k)]
                0 <= i < out@.len() && rest@.contains_key(k) ==> ranks(count_views(out@)[i], (k, rest@[k])),
        decreases rest.pairs().len(),
    {
        let ghost before = rest@;
        let ghost pairs = rest.pairs();
        let ghost had = count_views(out@);
        proof {
            crate::table::lemma_table_view(rest);
        }
        let p: usize = best_of(&rest);
        let (k, v) = rest.remove_at(p);
        let ghost id = k@;
        out.push((k, v));
        let ghost now = count_views(out@);
        assert(now =~= had.push((id, v)));
        proof {
            crate::table::lemma_map_of(pairs);
            assert(rest@ == before.remove(id));
            assert forall|j: int, x: Seq<char>|
                #![trigger now[j], rest@.contains_key(x)]
                0 <= j < now.len() && rest@.contains_key(x) implies ranks(now[j], (x, rest@[x])) by {
                assert(before.contains_key(x));
                if j < had.len() {
                    assert(now[j] == had[j]);
                } else {
                    let y = choose|y: int| 0 <= y < pairs.len() && (#[trigger] pairs[y]).0 == x;
                    assert(y != p);
                    assert(ranks(pairs[p as int], pairs[y]));
                }
            }
            assert forall|i: int, j: int| 0 <= i < j < now.len() implies ranks(#[trigger] now[i], #[trigger] now[j]) by {
                assert(now[i] == had[i]);
                if j < had.len() {
                    assert(now[j] == had[j]);
                } else {
                    assert(before.contains_key(id));
                }
            }
            assert forall|x: Seq<char>| #[trigger] m.contains_key(x) implies rest@.contains_key(x) || exists|j: int|
                0 <= j < now.len() && (#[trigger] now[j]).0 == x by {
                if !rest@.contains_key(x) {
                    if x == id {
                        assert(now[now.len() - 1].0 == x);
                    } else {
                        assert(!before.contains_key(x));
                        let j = choose|j: int| 0 <= j < had.len() && (#[trigger] had[j]).0 == x;
                        assert(now[j].0 == x);
                    }
                }
            }
            assert forall|i: int| 0 <= i < now.len() implies m.contains_pair((#[trigger] now[i]).0, now[i].1)
                && !rest@.contains_key(now[i].0) by {
                if i < had.len() {
                    assert(now[i] == had[i]);
                }
            }
        }
    }
    proof {
        let v = count_views(out@);
        assert(v.len() == out@.len());
        assert forall|k: Seq<char>, i: int|
            #![trigger m.contains_key(k), v[i]]
            m.contains_key(k) && 0 <= i < v.len() && (forall|j: int| 0 <= j < v.len() ==> (#[trigger] v[j]).0 != k)
                implies ranks(v[i], (k, m[k])) by {
            assert(rest@.contains_key(k));
        }
    }
    out
}

// ── The journal ──────────────────────────────────────────────────────────────

/// The log and the counters.
#[verifier::ext_equal]
pub struct Records {
    pub log: Seq<Noted>,
    pub tally: Tally,
}

/// The last `n` of a sequence.
pub open spec fn latest<T>(s: Seq<T>, n: int) -> Seq<T> {
    if s.len() <= n {
        s
    } else {
        s.subrange(s.len() - n, s.len() as int)
    }
}

impl Records {
    pub open spec fn empty() -> Records {
        Records { log: Seq::empty(), tally: Tally::empty() }
    }

    /// With a query: the log keeps the latest `size`.
    pub open spec fn with(self, e: Noted, upstream_ms: Option<u64>, size: usize) -> Records {
        Records {
            log: if size > 0 {
                latest(self.log, size - 1).push(e)
            } else {
                self.log
            },
            tally: self.tally.counted(e, upstream_ms),
        }
    }
}

/// Whether an entry is about a text: its name or its client holds it.
pub open spec fn about(e: Noted, f: Option<Seq<char>>) -> bool {
    match f {
        Some(t) => contains(e.name, t) || contains(e.client, t),
        None => true,
    }
}

/// The latest entries about a text, the latest first.
pub open spec fn recent(log: Seq<Noted>, f: Option<Seq<char>>, limit: int) -> Seq<Noted>
    decreases log.len(),
{
    if log.len() == 0 || limit <= 0 {
        Seq::empty()
    } else if about(log.last(), f) {
        seq![log.last()] + recent(log.drop_last(), f, limit - 1)
    } else {
        recent(log.drop_last(), f, limit)
    }
}

pub struct Journal {
    log: VecDeque<LogEntry>,
    counters: Counters,
}

pub open spec fn entry_views(v: Seq<LogEntry>) -> Seq<Noted> {
    Seq::new(v.len(), |i: int| v[i]@)
}

impl View for Journal {
    type V = Records;

    closed spec fn view(&self) -> Records {
        Records { log: entry_views(self.log@), tally: self.counters@ }
    }
}

impl Journal {
    pub closed spec fn wf(&self) -> bool {
        self.counters.wf()
    }

    pub fn new() -> (r: Self)
        ensures
            r.wf(),
            r@ == Records::empty(),
    {
        let r = Journal { log: VecDeque::new(), counters: Counters::new() };
        assert(r@ =~= Records::empty());
        r
    }

    /// Notes a query, and how long the upstream took for it; the log keeps the
    /// latest `size`.
    pub fn record(&mut self, entry: LogEntry, upstream_ms: Option<u64>, size: usize)
        requires
            old(self).wf(),
        ensures
            final(self).wf(),
            final(self)@ == old(self)@.with(entry@, upstream_ms, size),
    {
        let ghost start = *self;
        let ghost e = entry@;
        self.counters.count(&entry, upstream_ms);
        if size > 0 {
            assert(entry_views(self.log@) == start@.log);
            while self.log.len() >= size
                invariant
                    size > 0,
                    self.counters.wf(),
                    self.counters@ == start.counters@.counted(e, upstream_ms),
                    latest(entry_views(self.log@), size - 1) == latest(start@.log, size - 1),
                decreases self.log@.len(),
            {
                let ghost before = entry_views(self.log@);
                let _ = self.log.pop_front();
                assert(entry_views(self.log@) =~= before.drop_first());
                assert(latest(entry_views(self.log@), size - 1) =~= latest(before, size - 1));
            }
            let ghost before = entry_views(self.log@);
            self.log.push_back(entry);
            assert(entry_views(self.log@) =~= before.push(e));
        }
        assert(self@ =~= start@.with(e, upstream_ms, size));
    }

    /// The latest entries, the latest first; with a filter, those whose name or
    /// client holds it.
    pub fn query_log(&self, limit: usize, filter: Option<&str>) -> (r: Vec<LogEntry>)
        ensures
            entry_views(r@) == recent(
                self@.log,
                match filter {
                    Some(f) => Some(f@),
                    None => None,
                },
                limit as int,
            ),
    {
        let ghost all = entry_views(self.log@);
        let ghost f = match filter {
            Some(f) => Some(f@),
            None => None,
        };
        let mut out: Vec<LogEntry> = Vec::new();
        let mut i: usize = self.log.len();
        assert(all.subrange(0, i as int) =~= all);
        assert(entry_views(out@) + recent(all, f, limit as int) =~= recent(all, f, limit as int));
        while i > 0 && out.len() < limit
            invariant
                all == entry_views(self.log@),
                f == (match filter {
                    Some(f) => Some(f@),
                    None => None,
                }),
                i <= self.log@.len(),
                out@.len() <= limit,
                recent(all, f, limit as int) == entry_views(out@) + recent(
                    all.subrange(0, i as int),
                    f,
                    limit - out@.len(),
                ),
            decreases i,
        {
            let e = &self.log[i - 1];
            let ghost u = all.subrange(0, i as int);
            assert(u.drop_last() =~= all.subrange(0, i - 1));
            assert(u.last() == e@);
            let fits = match filter {
                Some(f) => {
                    let c = chars_of(f);
                    holds(&chars_of(&e.name), &c) || holds(&chars_of(&e.client), &c)
                },
                None => true,
            };
            if fits {
                let ghost before = entry_views(out@);
                out.push(e.duplicate());
                assert(entry_views(out@) =~= before.push(e@));
                let ghost more = recent(all.subrange(0, i - 1), f, limit - out@.len());
                assert(before + (seq![e@] + more) =~= entry_views(out@) + more);
            }
            i -= 1;
        }
        assert(recent(all.subrange(0, i as int), f, limit - out@.len()) =~= Seq::<Noted>::empty());
        assert(entry_views(out@) + Seq::<Noted>::empty() =~= entry_views(out@));
        out
    }

    /// Forgets everything.
    pub fn clear(&mut self)
        ensures
            final(self).wf(),
            final(self)@ == Records::empty(),
    {
        self.log = VecDeque::new();
        self.counters = Counters::new();
        assert(self@ =~= Records::empty());
    }

    pub fn total(&self) -> (r: u64)
        ensures
            r == self@.tally.total,
    {
        self.counters.total
    }

    pub fn blocked(&self) -> (r: u64)
        ensures
            r == self@.tally.blocked,
    {
        self.counters.blocked
    }

    pub fn rewritten(&self) -> (r: u64)
        ensures
            r == self@.tally.rewritten,
    {
        self.counters.rewritten
    }

    pub fn cached(&self) -> (r: u64)
        ensures
            r == self@.tally.cached,
    {
        self.counters.cached
    }

    pub fn failed(&self) -> (r: u64)
        ensures
            r == self@.tally.failed,
    {
        self.counters.failed
    }

    /// How long upstreams took on average, in milliseconds.
    pub fn avg_upstream_ms(&self) -> (r: Option<u64>)
        ensures
            r == if self@.tally.upstream_count > 0 {
                Some((self@.tally.upstream_ms_sum / self@.tally.upstream_count) as u64)
            } else {
                None
            },
    {
        if self.counters.upstream_count > 0 {
            Some(self.counters.upstream_ms_sum / self.counters.upstream_count)
        } else {
            None
        }
    }

    /// The `n` names that were asked for most often.
    pub fn top_domains(&self, n: usize) -> (r: Vec<(String, u64)>)
        requires
            self.wf(),
        ensures
            is_top(self@.tally.domains, n as int, count_views(r@)),
    {
        top(&self.counters.domains, n)
    }

    /// The `n` names that were blocked most often.
    pub fn top_blocked(&self, n: usize) -> (r: Vec<(String, u64)>)
        requires
            self.wf(),
        ensures
            is_top(self@.tally.blocked_domains, n as int, count_views(r@)),
    {
        top(&self.counters.blocked_domains, n)
    }

    /// The `n` clients that asked most often.
    pub fn top_clients(&self, n: usize) -> (r: Vec<(String, u64)>)
        requires
            self.wf(),
        ensures
            is_top(self@.tally.clients, n as int, count_views(r@)),
    {
        top(&self.counters.clients, n)
    }
}

// ── Laws ─────────────────────────────────────────────────────────────────────

/// The log stays within its size, and the newest entry is in it.
pub proof fn the_log_stays_within_its_size(r: Records, e: Noted, ms: Option<u64>, size: usize)
    requires
        size > 0,
    ensures
        r.with(e, ms, size).log.len() <= size,
        recent(r.with(e, ms, size).log, None, 1) == seq![e],
{
    let log = r.with(e, ms, size).log;
    assert(log.last() == e);
    assert(recent(log.drop_last(), None, 0) =~= Seq::<Noted>::empty());
    assert(recent(log, None, 1) =~= seq![e]);
}

/// Names beyond the cap are not counted one by one; those that are counted stay.
pub proof fn counted_names_stay_within_the_cap(m: Map<Seq<char>, u64>, key: Seq<char>)
    requires
        m.dom().finite(),
        m.dom().len() <= TOP_CAP,
    ensures
        bumped(m, key).dom().len() <= TOP_CAP,
        forall|k: Seq<char>| #[trigger] m.contains_key(k) ==> bumped(m, key).contains_key(k),
{
    if m.contains_key(key) {
        assert(m.insert(key, wrapped(m[key] + 1)).dom() =~= m.dom());
    } else {
        assert(m.insert(key, 1).dom() =~= m.dom().insert(key));
    }
}

/// Each question is counted once in all, and once by what became of it.
pub proof fn questions_are_counted(t: Tally, e: Noted, ms: Option<u64>)
    requires
        t.total < u64::MAX && t.blocked < u64::MAX && t.rewritten < u64::MAX && t.cached < u64::MAX && t.failed < u64::MAX,
        t.upstream_count < u64::MAX,
        ms matches Some(n) ==> t.upstream_ms_sum + n <= u64::MAX,
    ensures
        ({
            let u = t.counted(e, ms);
            &&& u.total == t.total + 1
            &&& e.outcome is Blocked || e.outcome is BlockedService ==> u.blocked == t.blocked + 1
            &&& !(e.outcome is Blocked || e.outcome is BlockedService) ==> u.blocked == t.blocked
                && u.blocked_domains == t.blocked_domains
            &&& e.outcome is Rewritten || e.outcome is SafeSearch ==> u.rewritten == t.rewritten + 1
            &&& !(e.outcome is Rewritten || e.outcome is SafeSearch) ==> u.rewritten == t.rewritten
            &&& e.outcome is Cached ==> u.cached == t.cached + 1
            &&& !(e.outcome is Cached) ==> u.cached == t.cached
            &&& e.outcome is Failed ==> u.failed == t.failed + 1
            &&& !(e.outcome is Failed) ==> u.failed == t.failed
            &&& ms matches Some(n) ==> u.upstream_count == t.upstream_count + 1 && u.upstream_ms_sum == t.upstream_ms_sum + n
            &&& ms is None ==> u.upstream_count == t.upstream_count && u.upstream_ms_sum == t.upstream_ms_sum
        }),
{
}

/// A name that is met once more counts one more, and a new one counts one while there are fewer
/// than five thousand; no other name changes.
pub proof fn names_are_counted(t: Tally, e: Noted, ms: Option<u64>, other: Seq<char>)
    requires
        other != e.name,
    ensures
        ({
            let u = t.counted(e, ms).domains;
            &&& t.domains.contains_key(e.name) && t.domains[e.name] < u64::MAX ==> u[e.name] == t.domains[e.name] + 1
            &&& !t.domains.contains_key(e.name) && t.domains.dom().len() < 5000 ==> u.contains_key(e.name) && u[e.name] == 1
            &&& !t.domains.contains_key(e.name) && t.domains.dom().len() >= 5000 ==> u == t.domains
            &&& u.contains_key(other) == t.domains.contains_key(other)
            &&& t.domains.contains_key(other) ==> u[other] == t.domains[other]
        }),
        e.outcome is Blocked && t.blocked_domains.contains_key(e.name) && t.blocked_domains[e.name] < u64::MAX
            ==> t.counted(e, ms).blocked_domains[e.name] == t.blocked_domains[e.name] + 1,
        t.clients.contains_key(e.client) && t.clients[e.client] < u64::MAX ==> t.counted(e, ms).clients[e.client]
            == t.clients[e.client] + 1,
{
}

/// The log is shown newest first, as far as it is wanted.
pub proof fn the_newest_questions_come_first(log: Seq<Noted>, limit: int, i: int)
    requires
        limit >= 0,
    ensures
        recent(log, None, limit).len() == (if log.len() < limit {
            log.len() as int
        } else {
            limit
        }),
        0 <= i < recent(log, None, limit).len() ==> recent(log, None, limit)[i] == log[log.len() - 1 - i],
    decreases log.len(),
{
    if log.len() > 0 && limit > 0 {
        the_newest_questions_come_first(log.drop_last(), limit - 1, i - 1);
        let r = recent(log.drop_last(), None, limit - 1);
        let all = recent(log, None, limit);
        assert(all == seq![log.last()] + r);
        if 0 < i < all.len() {
            assert(all[i] == r[i - 1]);
        }
    }
}

/// What is shown is about what is looked for: in the name or in the client.
pub proof fn shown_questions_are_about_it(log: Seq<Noted>, t: Seq<char>, limit: int, i: int)
    requires
        0 <= i < recent(log, Some(t), limit).len(),
    ensures
        contains(recent(log, Some(t), limit)[i].name, t) || contains(recent(log, Some(t), limit)[i].client, t),
        log.contains(recent(log, Some(t), limit)[i]),
    decreases log.len(),
{
    let d = log.drop_last();
    let e = recent(log, Some(t), limit)[i];
    if about(log.last(), Some(t)) {
        if i > 0 {
            assert(e == recent(d, Some(t), limit - 1)[i - 1]);
            shown_questions_are_about_it(d, t, limit - 1, i - 1);
            let k = choose|k: int| 0 <= k < d.len() && d[k] == e;
            assert(log[k] == e);
        } else {
            assert(log[log.len() - 1] == e);
        }
    } else {
        shown_questions_are_about_it(d, t, limit, i);
        let k = choose|k: int| 0 <= k < d.len() && d[k] == e;
        assert(log[k] == e);
    }
}

/// The log keeps the newest questions up to its size; with a size of none it keeps no new one.
pub proof fn the_log_keeps_the_newest(r: Records, e: Noted, ms: Option<u64>, size: usize, i: int)
    ensures
        size == 0 ==> r.with(e, ms, size).log == r.log,
        size > 0 ==> r.with(e, ms, size).log.last() == e,
        size > 0 && r.log.len() < size ==> r.with(e, ms, size).log == r.log.push(e),
        size > 0 && r.log.len() >= size && 1 <= i < size ==> r.with(e, ms, size).log.len() == size && r.with(
            e,
            ms,
            size,
        ).log[size - 1 - i] == r.log[r.log.len() - i],
{
}

/// The most frequent names are those that no other is more frequent than, in falling order.
pub proof fn the_most_frequent_come_first(m: Map<Seq<char>, u64>, n: int, v: Seq<(Seq<char>, u64)>, k: Seq<char>, i: int, j: int)
    requires
        is_top(m, n, v),
        m.contains_key(k),
        0 <= i < v.len(),
    ensures
        m.contains_key(v[i].0) && m[v[i].0] == v[i].1,
        (forall|x: int| 0 <= x < v.len() ==> (#[trigger] v[x]).0 != k) ==> v[i].1 >= m[k],
        i < j < v.len() ==> v[i].1 >= v[j].1 && v[i].0 != v[j].0,
        v.len() <= n,
        m.dom().len() <= n ==> v.len() == m.dom().len(),
{
    if i < j < v.len() {
        assert(ranks(v[i], v[j]));
        crate::text::lemma_text_order(v[i].0, v[j].0);
        assert(m.contains_pair(v[i].0, v[i].1) && m.contains_pair(v[j].0, v[j].1));
    }
    assert(m.contains_pair(v[i].0, v[i].1));
}

} // verus!
