//! What clients of the resolver can rely on.

use vstd::prelude::*;

use crate::dns::cache::{answers_live_as_long_as_their_records, kept_answer, keeps, lives_for, Answered};
use crate::dns::filter::Ruling;
use crate::dns::lists::{outdated, turned_on};
use crate::dns::resolver::{
    asked_in, bypasses, host_move, inquiry, rewrites, rewritten, target_ips, Conf, HostMove, HostTurn, Inquiry, Memory,
    Moment, Policy, Progress, Purpose, Target, Wait,
};
use crate::dns::services::{
    doh_name, domains_of, google_name, public_resolver, safe_entry, safe_target, serves, service_from, SAFE_SEARCH,
    SERVICES,
};
use crate::dns::settings::{BlockingMode, FilterList};
use crate::dns::wire::{
    address_in, address_records, all_counted_down, alias_reply, cnames, counted_down, dns_alias_message, dns_answer,
    dns_message, dns_query, dns_question, first_address, fitting, names_in, places, plain, record_ttls, refreshed,
    renumbered, OwnParts,
};
use crate::net::{read_ip, read_socket, IpAddr};
use crate::text::{ends_with, lower, rsplit_once, starts_with, string_views, trim_end_char};
use crate::time::Duration;

verus! {

// ── Replies ──────────────────────────────────────────────────────────────────

/// The reply to a query with a code and records; it repeats the number and the questions.
pub open spec fn reply_with(query: Seq<u8>, code: u8, records: Seq<OwnParts>) -> Option<Seq<u8>> {
    match dns_question(query) {
        Some((id, rd, questions)) => dns_message(
            query,
            id,
            if rd {
                0x0180
            } else {
                0x0080
            },
            code,
            places(questions.len()),
            records,
        ),
        None => None,
    }
}

/// The question that a query asks first.
pub open spec fn asks(query: Seq<u8>, name: Seq<char>, qtype: u16) -> bool {
    dns_question(query) matches Some((_, _, questions)) && questions.len() > 0 && plain(questions[0].0) == name
        && questions[0].1 == qtype
}

/// Nothing that comes before the rules speaks of a name: no rewrite and no hosts line, and it
/// is no local name, no search engine to be made safe, no way round the resolver and of no
/// blocked service.
pub open spec fn left_to_rules(c: Conf, name: Seq<char>) -> bool {
    &&& forall|i: int| 0 <= i < c.rewrites.len() ==> !rewrites((#[trigger] c.rewrites[i]).0, name)
    &&& c.rules.answers(name).len() == 0
    &&& name != "ostp"@ && !ends_with(name, ".ostp"@)
    &&& !c.settings.safe_search || safe_target(name) is None
    &&& !c.settings.block_doh_bypass || !doh_name(name)
    &&& forall|i: int|
        0 <= i < SERVICES@.len() && string_views(c.settings.blocked_services@).contains((#[trigger] SERVICES@[i]).0@)
            ==> !serves(i, name)
}

proof fn lemma_rewritten(all: Seq<(Seq<char>, Target)>, name: Seq<char>)
    ensures
        rewritten(all, name).len() == 0 <==> forall|i: int| 0 <= i < all.len() ==> !rewrites((#[trigger] all[i]).0, name),
        forall|t: Target| #[trigger]
            rewritten(all, name).contains(t) <==> exists|i: int|
                0 <= i < all.len() && rewrites((#[trigger] all[i]).0, name) && all[i].1 == t,
    decreases all.len(),
{
    if all.len() > 0 {
        let d = all.drop_last();
        let n = all.len() - 1;
        lemma_rewritten(d, name);
        assert(forall|i: int| 0 <= i < n ==> d[i] == all[i]);
        let r = rewritten(all, name);
        let before = rewritten(d, name);
        if rewrites(all[n].0, name) {
            assert(r[r.len() - 1] == all[n].1);
        }
        assert forall|t: Target| #[trigger] r.contains(t) <==> exists|i: int|
            0 <= i < all.len() && rewrites((#[trigger] all[i]).0, name) && all[i].1 == t by {
            if r.contains(t) {
                let j = choose|j: int| 0 <= j < r.len() && r[j] == t;
                if j < before.len() {
                    assert(before[j] == t);
                    assert(before.contains(t));
                    let i = choose|i: int| 0 <= i < d.len() && rewrites((#[trigger] d[i]).0, name) && d[i].1 == t;
                    assert(all[i] == d[i]);
                } else {
                    assert(all[n].1 == t);
                }
            }
            if exists|i: int| 0 <= i < all.len() && rewrites((#[trigger] all[i]).0, name) && all[i].1 == t {
                let i = choose|i: int| 0 <= i < all.len() && rewrites((#[trigger] all[i]).0, name) && all[i].1 == t;
                if i < n {
                    assert(d[i] == all[i]);
                    assert(before.contains(t));
                    let j = choose|j: int| 0 <= j < before.len() && before[j] == t;
                    assert(r[j] == t);
                } else {
                    assert(r[r.len() - 1] == t);
                }
            }
        }
    }
}

proof fn lemma_service(i: int, name: Seq<char>, blocked: Seq<Seq<char>>)
    requires
        0 <= i,
    ensures
        service_from(i, name, blocked) is None <==> forall|j: int|
            i <= j < SERVICES@.len() && blocked.contains((#[trigger] SERVICES@[j]).0@) ==> !serves(j, name),
    decreases SERVICES@.len() - i,
{
    if i < SERVICES@.len() {
        lemma_service(i + 1, name, blocked);
    }
}

proof fn lemma_left_to_rules(c: Conf, name: Seq<char>)
    requires
        left_to_rules(c, name),
    ensures
        c.policy(name) == match c.rules.rule_on(name) {
            Ruling::Blocked(rule, source) => Policy::Blocked(rule, source),
            Ruling::Allowed(rule, source) => Policy::Excepted(rule, source),
            Ruling::Unlisted => Policy::Resolved,
        },
{
    lemma_rewritten(c.rewrites, name);
    lemma_service(0, name, string_views(c.settings.blocked_services@));
}

/// A name that a rule blocks is answered the way that was chosen: that there is no such name,
/// that the query is refused, or with an address that leads nowhere. No upstream is asked.
pub proof fn blocked_names_get_the_chosen_answer(
    c: Conf,
    m: Memory,
    query: Seq<u8>,
    name: Seq<char>,
    qtype: u16,
    client: IpAddr,
    at: Moment,
    sub: u16,
)
    requires
        c.settings.enabled,
        asks(query, name, qtype),
        left_to_rules(c, name),
        c.rules.rule_on(name) is Blocked,
    ensures
        ({
            let (after, p) = c.handled(m, query, client, at, sub);
            let ttl = c.settings.blocked_ttl;
            &&& after.cache == m.cache
            &&& c.settings.blocking_mode is Nxdomain ==> p == Progress::Reply(reply_with(query, 3, Seq::empty()))
            &&& c.settings.blocking_mode is Refused ==> p == Progress::Reply(reply_with(query, 5, Seq::empty()))
            &&& c.settings.blocking_mode is NullIp ==> p == Progress::Reply(
                reply_with(
                    query,
                    0,
                    if qtype == 1 {
                        seq![(0usize, ttl, Some(0u32), None::<u128>)]
                    } else if qtype == 28 {
                        seq![(0usize, ttl, None::<u32>, Some(0u128))]
                    } else if qtype == 255 {
                        seq![(0usize, ttl, Some(0u32), None::<u128>), (0usize, ttl, None::<u32>, Some(0u128))]
                    } else {
                        Seq::empty()
                    },
                ),
            )
        }),
{
    lemma_left_to_rules(c, name);
    let ttl = c.settings.blocked_ttl;
    let none = Seq::<(bool, u128)>::empty();
    assert(address_records(none, 0) =~= Seq::<OwnParts>::empty());
    let ips = seq![IpAddr::V4(0), IpAddr::V6(0)];
    reveal_with_fuel(fitting, 3);
    assert(ips.drop_last() =~= seq![IpAddr::V4(0)]);
    assert(ips.drop_last().drop_last() =~= Seq::<IpAddr>::empty());
    let records = address_records(fitting(ips, qtype), ttl);
    if qtype == 1 {
        assert(records =~= seq![(0usize, ttl, Some(0u32), None::<u128>)]);
    } else if qtype == 28 {
        assert(records =~= seq![(0usize, ttl, None::<u32>, Some(0u128))]);
    } else if qtype == 255 {
        assert(records =~= seq![(0usize, ttl, Some(0u32), None::<u128>), (0usize, ttl, None::<u32>, Some(0u128))]);
    } else {
        assert(records =~= Seq::<OwnParts>::empty());
    }
}

/// A name of a blocked service is refused, whatever the rules say of it, unless it is rewritten,
/// local, made safe, or a way round the resolver.
pub proof fn blocked_services_are_refused(
    c: Conf,
    m: Memory,
    query: Seq<u8>,
    name: Seq<char>,
    qtype: u16,
    client: IpAddr,
    at: Moment,
    sub: u16,
    i: int,
    k: int,
)
    requires
        c.settings.enabled,
        asks(query, name, qtype),
        forall|i: int| 0 <= i < c.rewrites.len() ==> !rewrites((#[trigger] c.rewrites[i]).0, name),
        c.rules.answers(name).len() == 0,
        name != "ostp"@ && !ends_with(name, ".ostp"@),
        !c.settings.safe_search || safe_target(name) is None,
        !c.settings.block_doh_bypass || !doh_name(name),
        0 <= i < SERVICES@.len(),
        string_views(c.settings.blocked_services@).contains(SERVICES@[i].0@),
        0 <= k < domains_of(i).len(),
        name == domains_of(i)[k] || ends_with(name, seq!['.'] + domains_of(i)[k]),
    ensures
        c.handled(m, query, client, at, sub).1 is Reply,
        c.settings.blocking_mode is Nxdomain ==> c.handled(m, query, client, at, sub).1 == Progress::Reply(
            reply_with(query, 3, Seq::empty()),
        ),
        c.settings.blocking_mode is Refused ==> c.handled(m, query, client, at, sub).1 == Progress::Reply(
            reply_with(query, 5, Seq::empty()),
        ),
{
    lemma_rewritten(c.rewrites, name);
    let blocked = string_views(c.settings.blocked_services@);
    assert(serves(i, name));
    lemma_service(0, name, blocked);
    let none = Seq::<(bool, u128)>::empty();
    assert(address_records(none, 0) =~= Seq::<OwnParts>::empty());
}

/// A name that no rule blocks, or that an exception allows, is left to the upstreams: unless
/// its answer is kept, the query goes out as it came.
pub proof fn allowed_names_are_asked_for(
    c: Conf,
    m: Memory,
    query: Seq<u8>,
    name: Seq<char>,
    qtype: u16,
    client: IpAddr,
    at: Moment,
    sub: u16,
)
    requires
        c.settings.enabled,
        asks(query, name, qtype),
        left_to_rules(c, name),
        !(c.rules.rule_on(name) is Blocked),
        c.settings.cache_size == 0 || !m.cache.contains_key((name, qtype)),
    ensures
        c.handled(m, query, client, at, sub).0 == m,
        c.handled(m, query, client, at, sub).1 matches Progress::Ask(w) && w.ask == query && w.query == query && w.ask_name
            == name && w.qtype == qtype && w.purpose == Purpose::Resolve && w.started == at.now,
{
    lemma_left_to_rules(c, name);
}

/// What an upstream answers is given as it is, unless it leads to a name that a rule blocks;
/// where no upstream answers, the client is told that the server failed.
pub proof fn upstream_answers_are_given(
    c: Conf,
    m: Memory,
    w: Wait,
    result: Result<(Seq<u8>, Seq<char>), Seq<char>>,
    at: Moment,
    after: Memory,
    reply: Option<Seq<u8>>,
)
    requires
        c.finishes(m, w, result, at, after, reply),
        w.purpose == Purpose::Resolve,
    ensures
        result matches Ok((answer, _)) ==> (forall|i: int|
            0 <= i < names_in(answer).len() ==> !(c.rules.rule_on(#[trigger] names_in(answer)[i]) is Blocked)) ==> reply
            == Some(answer),
        result is Err && (dns_question(w.query) matches Some(q) && q.1 == w.rd) ==> reply == reply_with(
            w.query,
            2,
            Seq::empty(),
        ) && after.cache == m.cache,
{
    let none = Seq::<(bool, u128)>::empty();
    assert(address_records(none, 0) =~= Seq::<OwnParts>::empty());
    if let Ok((answer, _)) = result {
        if forall|i: int|
            0 <= i < names_in(answer).len() ==> !(c.rules.rule_on(#[trigger] names_in(answer)[i]) is Blocked) {
            lemma_not_cloaked(c, names_in(answer), 0);
        }
    }
}

proof fn lemma_not_cloaked(c: Conf, names: Seq<Seq<char>>, i: int)
    requires
        0 <= i,
        forall|i: int| 0 <= i < names.len() ==> !(c.rules.rule_on(#[trigger] names[i]) is Blocked),
    ensures
        c.cloaked(names, i) is None,
    decreases names.len() - i,
{
    if i < names.len() {
        lemma_not_cloaked(c, names, i + 1);
    }
}

/// A question that was answered is answered again without an upstream for as long as the
/// shortest-lived record of the answer lives, with its own number; from then on the upstreams
/// are asked again.
pub proof fn questions_are_answered_again(
    c: Conf,
    m: Memory,
    w: Wait,
    answer: Seq<u8>,
    label: Seq<char>,
    at: Moment,
    after: Memory,
    reply: Option<Seq<u8>>,
    t: u32,
    query: Seq<u8>,
    client: IpAddr,
    later: Moment,
    sub: u16,
)
    requires
        c.settings.enabled,
        c.settings.cache_size > 0,
        c.settings.cache_min_ttl <= t <= c.settings.cache_max_ttl,
        w.purpose == Purpose::Resolve,
        c.finishes(m, w, Ok((answer, label)), at, after, reply),
        answer.len() > 3,
        answer[3] % 16 == 0 || answer[3] % 16 == 3,
        lives_for(answer, t),
        asks(query, w.ask_name, w.qtype),
        left_to_rules(c, w.ask_name),
        !(c.rules.rule_on(w.ask_name) is Blocked),
        at.now.nanos <= later.now.nanos,
        later.now.nanos - at.now.nanos < 0x1_0000_0000 * 1_000_000_000,
    ensures
        later.now.nanos - at.now.nanos < t * 1_000_000_000 ==> c.handled(after, query, client, later, sub).1 is Reply,
        later.now.nanos - at.now.nanos >= t * 1_000_000_000 ==> (c.handled(after, query, client, later, sub).1 matches Progress::Ask(
            x,
        ) && x.ask == query),
{
    lemma_left_to_rules(c, w.ask_name);
    let result = Ok::<(Seq<u8>, Seq<char>), Seq<char>>((answer, label));
    let cache = choose|cache: Answered| #[trigger]
        c.retains(m, w, result, at, cache) && (after, reply) == c.finished(
            Memory { cache, ..m },
            asked_in(w),
            w,
            result,
            at,
        );
    let q = inquiry(dns_question(query), query, client, later)->Some_0;
    let key = (w.ask_name, w.qtype);
    answers_live_as_long_as_their_records(
        m.cache,
        key,
        answer,
        c.settings.cache_size as int,
        c.settings.cache_min_ttl,
        c.settings.cache_max_ttl,
        at.now,
        cache,
        t,
        q.id,
        later.now,
    );
    assert(after.cache == cache);
}

// ── Rewrites ─────────────────────────────────────────────────────────────────

/// A rewrite is for its own name; one that begins with `*.` is for each name below the rest,
/// and not for the rest itself.
pub proof fn rewrites_are_for_their_names(pattern: Seq<char>, base: Seq<char>, front: Seq<char>, name: Seq<char>)
    requires
        !starts_with(pattern, "*."@),
    ensures
        rewrites(pattern, name) <==> pattern == name,
        rewrites("*."@ + base, front + seq!['.'] + base),
        !rewrites("*."@ + base, base),
        rewrites("*."@ + base, name) ==> exists|x: Seq<char>| name == #[trigger] (x + seq!['.']) + base,
{
    reveal_strlit("*.");
    let p = "*."@ + base;
    assert(p.subrange(0, 2) =~= "*."@);
    assert(p.subrange(2, p.len() as int) =~= base);
    let n = front + seq!['.'] + base;
    assert(n.subrange(n.len() - base.len(), n.len() as int) =~= base);
    if rewrites(p, name) {
        let x = name.subrange(0, name.len() - base.len() - 1);
        assert(name =~= (x + seq!['.']) + base);
    }
}

proof fn lemma_target_ips(v: Seq<Target>, ip: IpAddr)
    ensures
        target_ips(v).contains(ip) <==> v.contains(Target::Ip(ip)),
    decreases v.len(),
{
    if v.len() > 0 {
        let d = v.drop_last();
        let n = v.len() - 1;
        lemma_target_ips(d, ip);
        let r = target_ips(v);
        let before = target_ips(d);
        if v.contains(Target::Ip(ip)) {
            let i = choose|i: int| 0 <= i < v.len() && v[i] == Target::Ip(ip);
            if i < n {
                assert(d[i] == v[i]);
                let j = choose|j: int| 0 <= j < before.len() && before[j] == ip;
                assert(r[j] == ip);
            } else {
                assert(r[r.len() - 1] == ip);
            }
        }
        if r.contains(ip) {
            let j = choose|j: int| 0 <= j < r.len() && r[j] == ip;
            if j < before.len() {
                assert(before[j] == ip);
                let i = choose|i: int| 0 <= i < d.len() && d[i] == Target::Ip(ip);
                assert(v[i] == d[i]);
            } else {
                assert(v[n] == Target::Ip(ip));
            }
        }
    }
}

/// The addresses of a reply are those of the kind that is asked for: IPv4 addresses for type 1,
/// IPv6 addresses for type 28, and both for type 255.
pub proof fn addresses_fit_the_question(ips: Seq<IpAddr>, qtype: u16, v4: u32, v6: u128)
    ensures
        fitting(ips, qtype).contains((false, v4 as u128)) <==> ips.contains(IpAddr::V4(v4)) && (qtype == 1 || qtype
            == 255),
        fitting(ips, qtype).contains((true, v6)) <==> ips.contains(IpAddr::V6(v6)) && (qtype == 28 || qtype == 255),
        fitting(ips, qtype).len() <= ips.len(),
    decreases ips.len(),
{
    if ips.len() > 0 {
        let d = ips.drop_last();
        let n = ips.len() - 1;
        addresses_fit_the_question(d, qtype, v4, v6);
        let r = fitting(ips, qtype);
        let before = fitting(d, qtype);
        assert forall|x: (bool, u128)| before.contains(x) implies r.contains(x) by {
            let j = choose|j: int| 0 <= j < before.len() && before[j] == x;
            assert(r[j] == x);
        }
        assert forall|x: IpAddr| d.contains(x) implies ips.contains(x) by {
            let j = choose|j: int| 0 <= j < d.len() && d[j] == x;
            assert(ips[j] == x);
        }
        assert(ips[n] == ips.last());
        assert(ips.contains(ips.last()));
        if r.len() > before.len() {
            assert(r[r.len() - 1] == r.last());
            assert(r.contains(r.last()));
        }
        lemma_last_or_before(ips, IpAddr::V4(v4));
        lemma_last_or_before(ips, IpAddr::V6(v6));
        if r.len() > before.len() {
            assert(r.drop_last() =~= before);
            lemma_last_or_before(r, (false, v4 as u128));
            lemma_last_or_before(r, (true, v6));
        }
    }
}

proof fn lemma_last_or_before<A>(s: Seq<A>, x: A)
    requires
        s.len() > 0,
    ensures
        s.contains(x) <==> s.last() == x || s.drop_last().contains(x),
{
    if s.contains(x) {
        let i = choose|i: int| 0 <= i < s.len() && s[i] == x;
        if i < s.len() - 1 {
            assert(s.drop_last()[i] == x);
        }
    }
    if s.drop_last().contains(x) {
        let i = choose|i: int| 0 <= i < s.len() - 1 && s.drop_last()[i] == x;
        assert(s[i] == x);
    }
    if s.last() == x {
        assert(s[s.len() - 1] == x);
    }
}

/// A name that is rewritten to an IPv4 address is answered with it at once, whatever the rules
/// say of the name.
pub proof fn rewritten_names_get_their_address(
    c: Conf,
    m: Memory,
    query: Seq<u8>,
    name: Seq<char>,
    client: IpAddr,
    at: Moment,
    sub: u16,
    i: int,
    v4: u32,
)
    requires
        c.settings.enabled,
        asks(query, name, 1),
        0 <= i < c.rewrites.len(),
        rewrites(c.rewrites[i].0, name),
        c.rewrites[i].1 == Target::Ip(IpAddr::V4(v4)),
    ensures
        exists|records: Seq<OwnParts>| #[trigger]
            records.contains((0, 60, Some(v4), None)) && c.handled(m, query, client, at, sub).1 == Progress::Reply(
                reply_with(query, 0, records),
            ),
        c.handled(m, query, client, at, sub).0.cache == m.cache,
{
    lemma_rewritten(c.rewrites, name);
    let targets = rewritten(c.rewrites, name);
    let ip = IpAddr::V4(v4);
    assert(targets.contains(Target::Ip(ip)));
    lemma_target_ips(targets, ip);
    let ips = target_ips(targets);
    addresses_fit_the_question(ips, 1, v4, 0);
    let fit = fitting(ips, 1);
    let records = address_records(fit, 60);
    let j = choose|j: int| 0 <= j < fit.len() && fit[j] == (false, v4 as u128);
    assert(records[j] == (0usize, 60u32, Some(v4), None::<u128>));
    assert(records.contains((0usize, 60u32, Some(v4), None::<u128>)));
    assert(c.policy(name) == Policy::Rewritten(targets));
}

/// While search is to be safe, a search engine that nothing rewrites is answered with the name
/// of its safe form: unless its answer is kept, that name is asked for.
pub proof fn searches_are_made_safe(
    c: Conf,
    m: Memory,
    query: Seq<u8>,
    name: Seq<char>,
    qtype: u16,
    client: IpAddr,
    at: Moment,
    sub: u16,
    ask: Seq<u8>,
    target: Seq<char>,
)
    requires
        c.settings.enabled,
        c.settings.safe_search,
        asks(query, name, qtype),
        forall|i: int| 0 <= i < c.rewrites.len() ==> !rewrites((#[trigger] c.rewrites[i]).0, name),
        c.rules.answers(name).len() == 0,
        name != "ostp"@ && !ends_with(name, ".ostp"@),
        safe_target(name) == Some(target),
        dns_query(sub, true, target, qtype) == Some(ask),
        c.settings.cache_size == 0 || !m.cache.contains_key((target, qtype)),
    ensures
        c.handled(m, query, client, at, sub).1 matches Progress::Ask(w) && w.ask == ask && w.ask_name == target && w.query
            == query && w.purpose == Purpose::SafeSearch,
{
    lemma_rewritten(c.rewrites, name);
}

/// The answer for another name is given as one for the name that was asked for, which it is
/// said to stand for: for a rewrite, and for a safe search.
pub proof fn other_names_stand_for_the_question(
    c: Conf,
    m: Memory,
    w: Wait,
    answer: Seq<u8>,
    label: Seq<char>,
    at: Moment,
    after: Memory,
    reply: Option<Seq<u8>>,
)
    requires
        c.finishes(m, w, Ok((answer, label)), at, after, reply),
        w.purpose == Purpose::Rewrite || w.purpose == Purpose::SafeSearch,
        dns_question(w.query) matches Some(q) && q.1 == w.rd,
        dns_answer(answer) is Some,
        ({
            let q = dns_question(w.query)->Some_0;
            dns_alias_message(
                w.query,
                answer,
                q.0,
                if w.rd {
                    0x0180
                } else {
                    0x0080
                },
                places(q.2.len()),
                0,
                300,
                w.ask_name,
                places(dns_answer(answer)->Some_0.0.len()),
            ) is Some
        }),
    ensures
        ({
            let q = dns_question(w.query)->Some_0;
            reply == dns_alias_message(
                w.query,
                answer,
                q.0,
                if w.rd {
                    0x0180
                } else {
                    0x0080
                },
                places(q.2.len()),
                0,
                300,
                w.ask_name,
                places(dns_answer(answer)->Some_0.0.len()),
            )
        }),
{
}

/// A search engine of the table is led to its safe form, and so is each Google name with the
/// ending of a country.
pub proof fn search_engines_have_safe_forms(i: int, name: Seq<char>)
    requires
        0 <= i < SAFE_SEARCH@.len(),
        forall|j: int| 0 <= j < i ==> (#[trigger] SAFE_SEARCH@[j]).0@ != SAFE_SEARCH@[i].0@,
    ensures
        safe_target(SAFE_SEARCH@[i].0@) == Some(SAFE_SEARCH@[i].1@),
        google_name(name) && safe_entry(0, name) is None ==> safe_target(name) == Some("forcesafesearch.google.com"@),
        !google_name(name) && safe_entry(0, name) is None ==> safe_target(name) is None,
{
    lemma_safe_entry(0, i);
}

proof fn lemma_safe_entry(k: int, i: int)
    requires
        0 <= k <= i < SAFE_SEARCH@.len(),
        forall|j: int| k <= j < i ==> (#[trigger] SAFE_SEARCH@[j]).0@ != SAFE_SEARCH@[i].0@,
    ensures
        safe_entry(k, SAFE_SEARCH@[i].0@) == Some(SAFE_SEARCH@[i].1@),
    decreases i - k,
{
    if k < i {
        assert(SAFE_SEARCH@[k].0@ != SAFE_SEARCH@[i].0@);
        lemma_safe_entry(k + 1, i);
    }
}

// ── Messages ─────────────────────────────────────────────────────────────────

/// The dot at the end of a name does not count.
pub proof fn final_dots_do_not_count(name: Seq<char>)
    ensures
        plain(name.push('.')) == plain(name),
{
    assert(name.push('.').drop_last() =~= name);
}

/// A kept answer is given with the number of the new query, and its records live on for what
/// is left of their time, but for a second at least.
pub proof fn kept_times_run_down(ttl: u32, elapsed: u32, answer: Seq<u8>, id: u16)
    requires
        answer.len() >= 2,
        elapsed < u32::MAX,
    ensures
        ttl > elapsed ==> counted_down(ttl, elapsed) == ttl - elapsed,
        ttl <= elapsed ==> counted_down(ttl, elapsed) == 1,
        renumbered(answer, id).len() == answer.len(),
        renumbered(answer, id)[0] * 256 + renumbered(answer, id)[1] == id,
        forall|i: int| 2 <= i < answer.len() ==> #[trigger] renumbered(answer, id)[i] == answer[i],
        dns_answer(answer) is None ==> refreshed(answer, id, elapsed) == renumbered(answer, id),
{
}

/// The names that an answer leads to are those of its aliases.
pub proof fn answers_lead_to_their_aliases(
    v: Seq<(u32, Option<Seq<char>>, Option<u32>, Option<u128>)>,
    i: int,
    n: Seq<char>,
)
    requires
        0 <= i < v.len(),
        v[i].1 == Some(n),
    ensures
        cnames(v).contains(plain(n)),
    decreases v.len(),
{
    let d = v.drop_last();
    if i < v.len() - 1 {
        assert(d[i] == v[i]);
        answers_lead_to_their_aliases(d, i, n);
        let j = choose|j: int| 0 <= j < cnames(d).len() && cnames(d)[j] == plain(n);
        assert(cnames(v)[j] == plain(n));
    } else {
        assert(cnames(v)[cnames(v).len() - 1] == plain(n));
    }
}

/// The address of an answer is that of its first record with one.
pub proof fn the_first_address_is_taken(v: Seq<(u32, Option<Seq<char>>, Option<u32>, Option<u128>)>, i: int)
    requires
        0 <= i < v.len(),
        forall|j: int| 0 <= j < i ==> (#[trigger] v[j]).2 is None && v[j].3 is None,
    ensures
        v[i].2 matches Some(a) ==> first_address(v) == Some(IpAddr::V4(a)),
        v[i].2 is None ==> (v[i].3 matches Some(a) ==> first_address(v) == Some(IpAddr::V6(a))),
    decreases i,
{
    if i > 0 {
        assert(v[0].2 is None && v[0].3 is None);
        let d = v.drop_first();
        assert forall|j: int| 0 <= j < i - 1 implies (#[trigger] d[j]).2 is None && d[j].3 is None by {
            assert(d[j] == v[j + 1]);
        }
        the_first_address_is_taken(d, i - 1);
    }
}

// ── Hosts ────────────────────────────────────────────────────────────────────

/// A host that a rule blocks is not opened; an address is opened as it is; any other host is
/// looked up first.
pub proof fn blocked_hosts_are_not_opened(c: Conf, m: Memory, host: Seq<char>, client: IpAddr, at: Moment, id: u16)
    requires
        c.settings.enabled,
        left_to_rules(c, plain(crate::text::trim(host))),
    ensures
        read_ip(host) is Some ==> c.opens(m, host, client, at, id) == (m, HostTurn::ByName),
        read_ip(host) is None && c.rules.rule_on(plain(crate::text::trim(host))) is Blocked ==> c.opens(
            m,
            host,
            client,
            at,
            id,
        ).1 is Refused,
        read_ip(host) is None && !(c.rules.rule_on(plain(crate::text::trim(host))) is Blocked) ==> c.opens(
            m,
            host,
            client,
            at,
            id,
        ) == (m, HostTurn::Lookup),
{
    lemma_left_to_rules(c, plain(crate::text::trim(host)));
}

/// A host is looked up by its IPv4 addresses first, and by its IPv6 addresses where there is
/// none; the first address that is found is taken, and with none the host goes by its name.
pub proof fn hosts_are_looked_up_in_turn(host: Seq<char>, id: u16, a: Seq<u8>, b: Seq<u8>, ip: IpAddr, q: Seq<u8>)
    ensures
        dns_query(id, true, host, 1) == Some(q) ==> host_move(host, Seq::empty(), 0, id) == HostMove::Ask(q),
        address_in(a) == Some(ip) ==> host_move(host, seq![Some(a)], 0, id) == HostMove::Found(ip),
        address_in(a) is None && dns_query(id, true, host, 28) == Some(q) ==> host_move(host, seq![Some(a)], 0, id)
            == HostMove::Ask(q),
        address_in(a) is None && address_in(b) == Some(ip) ==> host_move(host, seq![Some(a), Some(b)], 0, id)
            == HostMove::Found(ip),
        address_in(a) is None && address_in(b) is None ==> host_move(host, seq![Some(a), Some(b)], 0, id)
            == HostMove::ByName,
        host_move(host, seq![None::<Seq<u8>>], 0, id) == HostMove::ByName,
{
    reveal_with_fuel(host_move, 3);
}

/// A connection goes round the resolver where it is to the port of DNS over TLS, or to that of
/// HTTPS at a public resolver.
pub proof fn ways_round_are_known(target: Seq<char>)
    ensures
        read_socket(target) matches Some(a) ==> (bypasses(target) <==> a.port == 853 || (a.port == 443
            && public_resolver(a.ip))),
        read_socket(target) is None ==> (bypasses(target) <==> (rsplit_once(target, ':') matches Some((_, p)) && p
            == "853"@)),
{
}

// ── Lists ────────────────────────────────────────────────────────────────────

/// The lists that are in use are those that are turned on.
pub proof fn lists_are_used_while_turned_on(lists: Seq<FilterList>, allow: bool, i: int)
    requires
        0 <= i < lists.len(),
        lists[i].enabled,
    ensures
        turned_on(lists, allow).contains((lists[i].name@, lists[i].url@, allow)),
        turned_on(lists, allow).len() <= lists.len(),
    decreases lists.len(),
{
    let d = lists.drop_last();
    let r = turned_on(lists, allow);
    let x = (lists[i].name@, lists[i].url@, allow);
    lemma_turned_on_len(d, allow);
    if i < lists.len() - 1 {
        assert(d[i] == lists[i]);
        lists_are_used_while_turned_on(d, allow, i);
        let j = choose|j: int| 0 <= j < turned_on(d, allow).len() && turned_on(d, allow)[j] == x;
        assert(r[j] == x);
    } else {
        assert(r[r.len() - 1] == x);
    }
}

proof fn lemma_turned_on_len(lists: Seq<FilterList>, allow: bool)
    ensures
        turned_on(lists, allow).len() <= lists.len(),
    decreases lists.len(),
{
    if lists.len() > 0 {
        lemma_turned_on_len(lists.drop_last(), allow);
    }
}

/// Lists that are turned off are not used.
pub proof fn lists_that_are_off_are_not_used(lists: Seq<FilterList>, allow: bool)
    requires
        forall|i: int| 0 <= i < lists.len() ==> !(#[trigger] lists[i]).enabled,
    ensures
        turned_on(lists, allow).len() == 0,
    decreases lists.len(),
{
    if lists.len() > 0 {
        let d = lists.drop_last();
        assert(forall|i: int| 0 <= i < d.len() ==> d[i] == lists[i]);
        lists_that_are_off_are_not_used(d, allow);
        assert(!lists[lists.len() - 1].enabled);
    }
}

/// A list is fetched again once it is as old as the interval, an hour at least, and where there
/// is none yet.
pub proof fn lists_are_fetched_again_in_time(age: Duration, hours: u32)
    ensures
        outdated(None, hours),
        hours > 0 ==> (outdated(Some(age), hours) <==> age.nanos >= hours * 3_600_000_000_000),
        outdated(Some(age), 0) <==> age.nanos >= 3_600_000_000_000,
{
}

} // verus!
