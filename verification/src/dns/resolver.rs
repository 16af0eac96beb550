//! The resolver: what it does with a name, in this order: local names, safe
//! search, the ways round it, blocked services, the rules, and then what is kept
//! and the upstream resolvers, whose answers are held against the rules too.

use vstd::prelude::*;

use crate::bytes::copy_of;
use crate::dns::cache::{keeps, kept_answer, Answered, Cache};
use crate::dns::filter::{Filter, Rules, Ruling, SourceStats, Verdict};
use crate::dns::journal::{
    count_views, entry_views, is_top, opt, recent, Journal, LogEntry, Noted, Outcome, Records,
};
use crate::dns::lists::{build_filter, rules_of, ListText};
use crate::dns::services::{
    doh_name, is_doh_name, is_public_resolver, public_resolver, safe_search_target, safe_target, service_from, service_of,
};
use crate::dns::settings::{rewrite_views, BlockingMode, DnsSettings, Rewrite, SettingsError};
use crate::dns::upstream::{labels, parse_upstreams, places, read_upstreams, Place, Upstream};
use crate::dns::wire::{
    address_in, answer_address, answer_names, alias_reply, dns_query, dns_question, dns_reply, fitting,
    fitting_addresses, names_in, plain, plain_name, read_query, write_alias_reply, write_query, write_reply, Query,
    QueryParts,
};
use crate::net::{ip_of, read_ip, read_socket, show_ip, socket_of, IpAddr};
use crate::text::{
    begins_str, chars_are, chars_of, decimal, ends, ends_str, ends_with, join, join_strings, owned, put_decimal,
    put_str, rcut, rsplit_once, same_chars, starts_with, string_of, string_views, trim, trimmed,
};
use crate::time::Instant;

verus! {

// ── Rewrites ─────────────────────────────────────────────────────────────────

/// What a name is rewritten to.
#[derive(Debug, Clone)]
pub enum Answer {
    Ip(IpAddr),
    Name(String),
}

/// What a name is rewritten to.
pub enum Target {
    Ip(IpAddr),
    Name(Seq<char>),
}

impl View for Answer {
    type V = Target;

    open spec fn view(&self) -> Target {
        match *self {
            Answer::Ip(ip) => Target::Ip(ip),
            Answer::Name(n) => Target::Name(n@),
        }
    }
}

impl Target {
    pub open spec fn text(self) -> Seq<char> {
        match self {
            Target::Ip(ip) => show_ip(ip),
            Target::Name(n) => n,
        }
    }
}

pub open spec fn target_views(v: Seq<Answer>) -> Seq<Target> {
    Seq::new(v.len(), |i: int| v[i]@)
}

pub open spec fn compiled_views(v: Seq<(String, Answer)>) -> Seq<(Seq<char>, Target)> {
    Seq::new(v.len(), |i: int| (v[i].0@, v[i].1@))
}

/// A rewrite as it is looked up.
pub open spec fn compiled(r: (Seq<char>, Seq<char>)) -> (Seq<char>, Target) {
    (
        plain(trim(r.0)),
        match read_ip(trim(r.1)) {
            Some(ip) => Target::Ip(ip),
            None => Target::Name(plain(trim(r.1))),
        },
    )
}

pub open spec fn all_compiled(v: Seq<(Seq<char>, Seq<char>)>) -> Seq<(Seq<char>, Target)> {
    Seq::new(v.len(), |i: int| compiled(v[i]))
}

fn compile_rewrites(list: &Vec<Rewrite>) -> (r: Vec<(String, Answer)>)
    ensures
        compiled_views(r@) == all_compiled(rewrite_views(list@)),
{
    let mut out: Vec<(String, Answer)> = Vec::new();
    let mut i: usize = 0;
    assert(compiled_views(out@) =~= all_compiled(rewrite_views(list@)).subrange(0, 0));
    while i < list.len()
        invariant
            i <= list@.len(),
            compiled_views(out@) == all_compiled(rewrite_views(list@)).subrange(0, i as int),
        decreases list@.len() - i,
    {
        let ghost before = compiled_views(out@);
        let a = chars_of(&list[i].answer);
        let d = chars_of(&list[i].domain);
        let text = string_of(trimmed(&a));
        let answer = match ip_of(&text) {
            Some(ip) => Answer::Ip(ip),
            None => Answer::Name(plain_name(&text)),
        };
        out.push((plain_name(&string_of(trimmed(&d))), answer));
        assert(compiled_views(out@) =~= before.push(compiled(rewrite_views(list@)[i as int])));
        assert(compiled_views(out@) =~= all_compiled(rewrite_views(list@)).subrange(0, i + 1));
        i += 1;
    }
    assert(compiled_views(out@) =~= all_compiled(rewrite_views(list@)));
    out
}

/// Whether a rewrite is for a name: for that name, or with `*.` for every name
/// below another.
pub open spec fn rewrites(pattern: Seq<char>, name: Seq<char>) -> bool {
    if starts_with(pattern, "*."@) {
        let base = pattern.subrange(2, pattern.len() as int);
        name.len() > base.len() && ends_with(name, base) && name[name.len() - base.len() - 1] == '.'
    } else {
        pattern == name
    }
}

/// Whether a rewrite is for a name.
pub fn rewrite_matches(pattern: &str, name: &str) -> (r: bool)
    ensures
        r == rewrites(pattern@, name@),
{
    proof {
        reveal_strlit("*.");
    }
    let p = chars_of(pattern);
    let n = chars_of(name);
    if begins_str(&p, "*.") {
        let m: usize = p.len();
        let base = vstd::slice::slice_subrange(&p, 2, m);
        let len: usize = n.len();
        let b: usize = base.len();
        len > b && ends(&n, base) && n[len - b - 1] == '.'
    } else {
        same_chars(&p, &n)
    }
}

/// The answers of the rewrites that are for a name.
pub open spec fn rewritten(all: Seq<(Seq<char>, Target)>, name: Seq<char>) -> Seq<Target>
    decreases all.len(),
{
    if all.len() == 0 {
        Seq::empty()
    } else {
        let rest = rewritten(all.drop_last(), name);
        if rewrites(all.last().0, name) {
            rest.push(all.last().1)
        } else {
            rest
        }
    }
}

pub open spec fn ip_targets(ips: Seq<IpAddr>) -> Seq<Target> {
    Seq::new(ips.len(), |i: int| Target::Ip(ips[i]))
}

// ── Policy ───────────────────────────────────────────────────────────────────

/// What the resolver goes by.
pub struct Conf {
    pub settings: DnsSettings,
    pub rules: Rules,
    pub rewrites: Seq<(Seq<char>, Target)>,
}

/// What is done with a name.
pub enum Policy {
    Rewritten(Seq<Target>),
    /// A local name that there is not.
    Local,
    SafeSearch(Seq<char>),
    /// A way round the resolver.
    Bypass,
    Service(Seq<char>),
    Blocked(Seq<char>, Seq<char>),
    /// An exception, with the rule and its list.
    Excepted(Seq<char>, Seq<char>),
    Resolved,
}

impl Conf {
    /// The local answers for a name: by a rewrite, or else by a hosts line.
    pub open spec fn local(self, name: Seq<char>) -> Seq<Target> {
        let r = rewritten(self.rewrites, name);
        if r.len() > 0 {
            r
        } else {
            ip_targets(self.rules.answers(name))
        }
    }

    /// What is done with a name.
    pub open spec fn policy(self, name: Seq<char>) -> Policy {
        let local = self.local(name);
        let safe = safe_target(name);
        let service = service_from(0, name, string_views(self.settings.blocked_services@));
        if local.len() > 0 {
            Policy::Rewritten(local)
        } else if name == "ostp"@ || ends_with(name, ".ostp"@) {
            Policy::Local
        } else if self.settings.safe_search && safe is Some {
            Policy::SafeSearch(safe->Some_0)
        } else if self.settings.block_doh_bypass && doh_name(name) {
            Policy::Bypass
        } else if service is Some {
            Policy::Service(service->Some_0)
        } else {
            match self.rules.rule_on(name) {
                Ruling::Blocked(rule, source) => Policy::Blocked(rule, source),
                Ruling::Allowed(rule, source) => Policy::Excepted(rule, source),
                Ruling::Unlisted => Policy::Resolved,
            }
        }
    }
}

enum Plan {
    Rewritten(Vec<Answer>),
    Local,
    SafeSearch(&'static str),
    Bypass,
    Service(&'static str),
    Blocked(String, String),
    Excepted(String, String),
    Resolved,
}

impl View for Plan {
    type V = Policy;

    closed spec fn view(&self) -> Policy {
        match *self {
            Plan::Rewritten(v) => Policy::Rewritten(target_views(v@)),
            Plan::Local => Policy::Local,
            Plan::SafeSearch(t) => Policy::SafeSearch(t@),
            Plan::Bypass => Policy::Bypass,
            Plan::Service(s) => Policy::Service(s@),
            Plan::Blocked(rule, source) => Policy::Blocked(rule@, source@),
            Plan::Excepted(rule, source) => Policy::Excepted(rule@, source@),
            Plan::Resolved => Policy::Resolved,
        }
    }
}

/// Why a name is answered the way it is.
#[derive(Debug, Clone)]
pub struct Explanation {
    pub name: String,
    pub outcome: Outcome,
    pub detail: String,
    pub rule: Option<String>,
    pub source: Option<String>,
}

/// Why a name is answered the way it is.
#[verifier::ext_equal]
pub struct Reason {
    pub name: Seq<char>,
    pub outcome: Outcome,
    pub detail: Seq<char>,
    pub rule: Option<Seq<char>>,
    pub source: Option<Seq<char>>,
}

impl View for Explanation {
    type V = Reason;

    open spec fn view(&self) -> Reason {
        Reason {
            name: self.name@,
            outcome: self.outcome,
            detail: self.detail@,
            rule: opt(self.rule),
            source: opt(self.source),
        }
    }
}

pub open spec fn target_texts(v: Seq<Target>) -> Seq<Seq<char>> {
    Seq::new(v.len(), |i: int| v[i].text())
}

/// What is said of a name that is treated in some way.
pub open spec fn reason(name: Seq<char>, p: Policy) -> Reason {
    match p {
        Policy::Rewritten(v) => Reason {
            name,
            outcome: Outcome::Rewritten,
            detail: "answered locally: "@ + join(target_texts(v), ", "@),
            rule: None,
            source: None,
        },
        Policy::Local => Reason {
            name,
            outcome: Outcome::Blocked,
            detail: "a .ostp name without a rewrite: NXDOMAIN, never sent upstream"@,
            rule: None,
            source: None,
        },
        Policy::SafeSearch(t) => Reason {
            name,
            outcome: Outcome::SafeSearch,
            detail: "safe search: answered with "@ + t,
            rule: None,
            source: None,
        },
        Policy::Bypass => Reason {
            name,
            outcome: Outcome::Blocked,
            detail: "a browser's own DNS over HTTPS: blocked so queries stay here"@,
            rule: None,
            source: Some("built-in"@),
        },
        Policy::Service(s) => Reason {
            name,
            outcome: Outcome::BlockedService,
            detail: "service "@ + s + " is blocked"@,
            rule: None,
            source: Some("blocked services"@),
        },
        Policy::Blocked(rule, source) => Reason {
            name,
            outcome: Outcome::Blocked,
            detail: "blocked by a rule"@,
            rule: Some(rule),
            source: Some(source),
        },
        Policy::Excepted(rule, source) => Reason {
            name,
            outcome: Outcome::Allowed,
            detail: "allowed by an exception"@,
            rule: Some(rule),
            source: Some(source),
        },
        Policy::Resolved => Reason {
            name,
            outcome: Outcome::Allowed,
            detail: "no rule matches: resolved upstream"@,
            rule: None,
            source: None,
        },
    }
}

/// The name of a type of records.
pub open spec fn type_text(code: u16) -> Seq<char> {
    if code == 1 {
        "A"@
    } else if code == 2 {
        "NS"@
    } else if code == 5 {
        "CNAME"@
    } else if code == 6 {
        "SOA"@
    } else if code == 12 {
        "PTR"@
    } else if code == 15 {
        "MX"@
    } else if code == 16 {
        "TXT"@
    } else if code == 28 {
        "AAAA"@
    } else if code == 33 {
        "SRV"@
    } else if code == 64 {
        "SVCB"@
    } else if code == 65 {
        "HTTPS"@
    } else if code == 255 {
        "ANY"@
    } else {
        "TYPE"@ + decimal(code as nat)
    }
}

/// The name of a type of records.
pub fn qtype_name(code: u16) -> (r: String)
    ensures
        r@ == type_text(code),
{
    match code {
        1 => owned("A"),
        2 => owned("NS"),
        5 => owned("CNAME"),
        6 => owned("SOA"),
        12 => owned("PTR"),
        15 => owned("MX"),
        16 => owned("TXT"),
        28 => owned("AAAA"),
        33 => owned("SRV"),
        64 => owned("SVCB"),
        65 => owned("HTTPS"),
        255 => owned("ANY"),
        n => {
            let mut v = chars_of("TYPE");
            put_decimal(&mut v, n as u64);
            string_of(&v)
        },
    }
}

// ── The resolver ─────────────────────────────────────────────────────────────

/// A point in time: on the resolver's clock, and in milliseconds since the Unix
/// epoch.
#[derive(Debug, Clone, Copy, PartialEq, Eq, Structural)]
pub struct Moment {
    pub now: Instant,
    pub time: u64,
}

/// What changes as the resolver works.
#[verifier::ext_equal]
pub struct Memory {
    pub cache: Answered,
    pub records: Records,
}

pub struct Dns {
    settings: DnsSettings,
    filter: Filter,
    rewrites: Vec<(String, Answer)>,
    upstreams: Vec<Upstream>,
    cache: Cache,
    journal: Journal,
    started: Instant,
}

/// A query that waits for the answer of an upstream.
#[derive(Debug)]
pub struct Pending {
    /// What the upstream is asked.
    pub ask: Vec<u8>,
    ask_name: String,
    query: Vec<u8>,
    recursion_desired: bool,
    name: String,
    qtype: u16,
    client: IpAddr,
    started: Instant,
    purpose: Purpose,
}

/// What the answer of an upstream is wanted for.
#[derive(Debug, Clone, Copy, PartialEq, Eq, Structural)]
pub enum Purpose {
    /// The filter is off.
    Forward,
    Resolve,
    /// A name is rewritten to another one.
    Rewrite,
    SafeSearch,
}

/// A query that waits for the answer of an upstream.
#[verifier::ext_equal]
pub struct Wait {
    pub ask: Seq<u8>,
    pub ask_name: Seq<char>,
    pub query: Seq<u8>,
    pub rd: bool,
    pub name: Seq<char>,
    pub qtype: u16,
    pub client: IpAddr,
    pub started: Instant,
    pub purpose: Purpose,
}

impl View for Pending {
    type V = Wait;

    closed spec fn view(&self) -> Wait {
        Wait {
            ask: self.ask@,
            ask_name: self.ask_name@,
            query: self.query@,
            rd: self.recursion_desired,
            name: self.name@,
            qtype: self.qtype,
            client: self.client,
            started: self.started,
            purpose: self.purpose,
        }
    }
}

impl Wait {
    /// The query can be read, and asks something.
    pub open spec fn wf(self) -> bool {
        dns_question(self.query) matches Some(q) && q.2.len() > 0
    }
}

/// What is done with a query.
#[derive(Debug)]
pub enum Step {
    /// It is not for the resolver.
    Pass,
    /// It is answered.
    Reply(Option<Vec<u8>>),
    /// An upstream is asked first.
    Ask(Pending),
}

/// What is done with a query.
pub enum Progress {
    Pass,
    Reply(Option<Seq<u8>>),
    Ask(Wait),
}

pub open spec fn opt_reply(r: Option<Vec<u8>>) -> Option<Seq<u8>> {
    match r {
        Some(b) => Some(b@),
        None => None,
    }
}

impl View for Step {
    type V = Progress;

    open spec fn view(&self) -> Progress {
        match *self {
            Step::Pass => Progress::Pass,
            Step::Reply(r) => Progress::Reply(opt_reply(r)),
            Step::Ask(p) => Progress::Ask(p@),
        }
    }
}

/// A question of a client.
#[verifier::ext_equal]
pub struct Inquiry {
    pub query: Seq<u8>,
    pub id: u16,
    pub rd: bool,
    pub name: Seq<char>,
    pub qtype: u16,
    pub client: IpAddr,
    pub started: Instant,
}

/// What the log says of a question.
pub open spec fn noted(
    q: Inquiry,
    at: Moment,
    outcome: Outcome,
    rule: Option<Seq<char>>,
    source: Option<Seq<char>>,
    upstream: Option<Seq<char>>,
) -> Noted {
    Noted {
        time: at.time,
        client: show_ip(q.client),
        name: q.name,
        qtype: type_text(q.qtype),
        outcome,
        rule,
        source,
        upstream,
        elapsed_ms: (at.now.spec_since(q.started).nanos / 1_000_000) as u64,
    }
}

impl Conf {
    /// The memory with an entry in the log.
    pub open spec fn note(self, m: Memory, e: Noted, ms: Option<u64>) -> Memory {
        Memory { records: m.records.with(e, ms, self.settings.query_log_size), ..m }
    }

    /// The answer that is kept for a question, where answers are kept.
    pub open spec fn kept(self, m: Memory, name: Seq<char>, qtype: u16, id: u16, now: Instant) -> Option<Seq<u8>> {
        if self.settings.cache_size > 0 {
            kept_answer(m.cache, name, qtype, id, now)
        } else {
            None
        }
    }

    /// The reply to a question for a blocked name.
    pub open spec fn refusal(self, q: Inquiry) -> Option<Seq<u8>> {
        match self.settings.blocking_mode {
            BlockingMode::Nxdomain => dns_reply(q.query, q.rd, 3, Seq::empty(), 0),
            BlockingMode::Refused => dns_reply(q.query, q.rd, 5, Seq::empty(), 0),
            BlockingMode::NullIp => dns_reply(
                q.query,
                q.rd,
                0,
                fitting(seq![IpAddr::V4(0), IpAddr::V6(0)], q.qtype),
                self.settings.blocked_ttl,
            ),
        }
    }

    /// The first name that an answer leads to, from the `i`th on, that is blocked.
    pub open spec fn cloaked(self, names: Seq<Seq<char>>, i: int) -> Option<(Seq<char>, Seq<char>, Seq<char>)>
        decreases names.len() - i,
    {
        if i < 0 || i >= names.len() {
            None
        } else {
            match self.rules.rule_on(names[i]) {
                Ruling::Blocked(rule, source) => Some((names[i], rule, source)),
                _ => self.cloaked(names, i + 1),
            }
        }
    }

    /// A question for which there is an answer: it is given, unless it leads to a
    /// blocked name.
    pub open spec fn answered(
        self,
        m: Memory,
        q: Inquiry,
        at: Moment,
        answer: Seq<u8>,
        upstream: Option<Seq<char>>,
        ms: Option<u64>,
    ) -> (Memory, Option<Seq<u8>>) {
        match self.cloaked(names_in(answer), 0) {
            Some((target, rule, source)) => (
                self.note(
                    m,
                    noted(
                        q,
                        at,
                        Outcome::Blocked,
                        Some(rule + " (CNAME "@ + target + ")"@),
                        Some(source),
                        upstream,
                    ),
                    ms,
                ),
                self.refusal(q),
            ),
            None => (
                self.note(
                    m,
                    noted(
                        q,
                        at,
                        if upstream is None {
                            Outcome::Cached
                        } else {
                            Outcome::Allowed
                        },
                        None,
                        None,
                        upstream,
                    ),
                    ms,
                ),
                Some(answer),
            ),
        }
    }

    pub open spec fn waits(self, q: Inquiry, ask: Seq<u8>, ask_name: Seq<char>, purpose: Purpose) -> Progress {
        Progress::Ask(
            Wait {
                ask,
                ask_name,
                query: q.query,
                rd: q.rd,
                name: q.name,
                qtype: q.qtype,
                client: q.client,
                started: q.started,
                purpose,
            },
        )
    }

    /// A question that is answered with another name: with its number `sub` the
    /// question for that name goes out, where the answer is not kept. Where there is no such
    /// question, the server fails.
    pub open spec fn redirected(self, m: Memory, q: Inquiry, target: Seq<char>, sub: u16, purpose: Purpose) -> Progress {
        match dns_query(sub, true, target, q.qtype) {
            None => Progress::Reply(dns_reply(q.query, q.rd, 2, Seq::empty(), 0)),
            Some(ask) => match self.kept(m, target, q.qtype, sub, q.started) {
                Some(a) => Progress::Reply(alias_reply(q.query, q.rd, target, 300, a)),
                None => self.waits(q, ask, target, purpose),
            },
        }
    }

    /// What is done with a question, while the filter is on.
    pub open spec fn decided(self, m: Memory, q: Inquiry, at: Moment, sub: u16) -> (Memory, Progress) {
        match self.policy(q.name) {
            Policy::Rewritten(targets) => {
                let ips = target_ips(targets);
                if ips.len() > 0 {
                    (
                        self.note(m, noted(q, at, Outcome::Rewritten, None, None, None), None),
                        Progress::Reply(dns_reply(q.query, q.rd, 0, fitting(ips, q.qtype), 60)),
                    )
                } else {
                    let p = self.redirected(m, q, first_name(targets), sub, Purpose::Rewrite);
                    (
                        if p is Ask {
                            m
                        } else {
                            self.note(m, noted(q, at, Outcome::Rewritten, None, None, None), None)
                        },
                        p,
                    )
                }
            },
            Policy::Local => (
                self.note(m, noted(q, at, Outcome::Blocked, Some(".ostp without a rewrite"@), None, None), None),
                Progress::Reply(dns_reply(q.query, q.rd, 3, Seq::empty(), 0)),
            ),
            Policy::SafeSearch(t) => (
                self.note(m, noted(q, at, Outcome::SafeSearch, None, None, None), None),
                self.redirected(m, q, t, sub, Purpose::SafeSearch),
            ),
            Policy::Bypass => (
                self.note(
                    m,
                    noted(q, at, Outcome::Blocked, Some("browser DNS over HTTPS"@), Some("built-in"@), None),
                    None,
                ),
                Progress::Reply(dns_reply(q.query, q.rd, 3, Seq::empty(), 0)),
            ),
            Policy::Service(s) => (
                self.note(
                    m,
                    noted(q, at, Outcome::BlockedService, Some(s), Some("blocked services"@), None),
                    None,
                ),
                Progress::Reply(self.refusal(q)),
            ),
            Policy::Blocked(rule, source) => (
                self.note(m, noted(q, at, Outcome::Blocked, Some(rule), Some(source), None), None),
                Progress::Reply(self.refusal(q)),
            ),
            _ => match self.kept(m, q.name, q.qtype, q.id, q.started) {
                Some(a) => {
                    let (after, reply) = self.answered(m, q, at, a, None, None);
                    (after, Progress::Reply(reply))
                },
                None => (m, self.waits(q, q.query, q.name, Purpose::Resolve)),
            },
        }
    }

    /// What is done with a question, while the filter is off.
    pub open spec fn forwarded(self, m: Memory, q: Inquiry, at: Moment) -> (Memory, Progress) {
        match self.kept(m, q.name, q.qtype, q.id, q.started) {
            Some(a) => (
                self.note(m, noted(q, at, Outcome::Cached, None, None, None), None),
                Progress::Reply(Some(a)),
            ),
            None => (m, self.waits(q, q.query, q.name, Purpose::Forward)),
        }
    }

    /// What is done with a query of a client.
    pub open spec fn handled(self, m: Memory, query: Seq<u8>, client: IpAddr, at: Moment, sub: u16) -> (
        Memory,
        Progress,
    ) {
        if !self.settings.enabled && !self.settings.intercept_all_port53 {
            (m, Progress::Pass)
        } else {
            match inquiry(dns_question(query), query, client, at) {
                None => (m, Progress::Pass),
                Some(q) => if self.settings.enabled {
                    self.decided(m, q, at, sub)
                } else {
                    self.forwarded(m, q, at)
                },
            }
        }
    }

    /// What an upstream says, or why it says nothing, is worked up: the memory with
    /// the answer kept, and what is done then.
    pub open spec fn finished(
        self,
        kept: Memory,
        q: Inquiry,
        w: Wait,
        result: Result<(Seq<u8>, Seq<char>), Seq<char>>,
        at: Moment,
    ) -> (Memory, Option<Seq<u8>>) {
        let ms = Some((at.now.spec_since(w.started).nanos / 1_000_000) as u64);
        match result {
            Ok((answer, label)) => match w.purpose {
                Purpose::Forward => (
                    self.note(kept, noted(q, at, Outcome::Forwarded, None, None, Some(label)), ms),
                    Some(answer),
                ),
                Purpose::Resolve => self.answered(kept, q, at, answer, Some(label), ms),
                Purpose::Rewrite => (
                    self.note(kept, noted(q, at, Outcome::Rewritten, None, None, None), None),
                    alias_reply(w.query, w.rd, w.ask_name, 300, answer),
                ),
                Purpose::SafeSearch => (kept, alias_reply(w.query, w.rd, w.ask_name, 300, answer)),
            },
            Err(e) => match w.purpose {
                Purpose::Forward => (
                    self.note(kept, noted(q, at, Outcome::Failed, None, None, Some(e)), None),
                    dns_reply(w.query, w.rd, 2, Seq::empty(), 0),
                ),
                Purpose::Resolve => (
                    self.note(kept, noted(q, at, Outcome::Failed, None, None, Some(e)), None),
                    dns_reply(w.query, w.rd, 2, Seq::empty(), 0),
                ),
                Purpose::Rewrite => (
                    self.note(kept, noted(q, at, Outcome::Rewritten, None, None, None), None),
                    dns_reply(w.query, w.rd, 2, Seq::empty(), 0),
                ),
                Purpose::SafeSearch => (kept, dns_reply(w.query, w.rd, 2, Seq::empty(), 0)),
            },
        }
    }

    /// The answer of an upstream is kept, where answers are kept, and worked up.
    pub open spec fn finishes(
        self,
        m: Memory,
        w: Wait,
        result: Result<(Seq<u8>, Seq<char>), Seq<char>>,
        at: Moment,
        after: Memory,
        reply: Option<Seq<u8>>,
    ) -> bool {
        exists|cache: Answered| #[trigger]
            self.retains(m, w, result, at, cache) && (after, reply) == self.finished(
                Memory { cache, ..m },
                asked_in(w),
                w,
                result,
                at,
            )
    }

    /// What is kept once an upstream has answered, or has not.
    pub open spec fn retains(
        self,
        m: Memory,
        w: Wait,
        result: Result<(Seq<u8>, Seq<char>), Seq<char>>,
        at: Moment,
        cache: Answered,
    ) -> bool {
        match result {
            Ok((answer, _)) => keeps(
                m.cache,
                (w.ask_name, w.qtype),
                answer,
                self.settings.cache_size as int,
                self.settings.cache_min_ttl,
                self.settings.cache_max_ttl,
                at.now,
                cache,
            ),
            Err(_) => cache == m.cache,
        }
    }
}

/// The question that a wait is about.
pub open spec fn asked_in(w: Wait) -> Inquiry {
    Inquiry {
        query: w.query,
        id: match dns_question(w.query) {
            Some(q) => q.0,
            None => 0,
        },
        rd: w.rd,
        name: w.name,
        qtype: w.qtype,
        client: w.client,
        started: w.started,
    }
}

/// The first question of a query.
pub open spec fn inquiry(q: Option<QueryParts>, query: Seq<u8>, client: IpAddr, at: Moment) -> Option<Inquiry> {
    match q {
        Some((id, rd, questions)) => if questions.len() > 0 {
            Some(
                Inquiry {
                    query,
                    id,
                    rd,
                    name: plain(questions[0].0),
                    qtype: questions[0].1,
                    client,
                    started: at.now,
                },
            )
        } else {
            None
        },
        None => None,
    }
}

/// The addresses among targets.
pub open spec fn target_ips(v: Seq<Target>) -> Seq<IpAddr>
    decreases v.len(),
{
    if v.len() == 0 {
        Seq::empty()
    } else {
        match v.last() {
            Target::Ip(ip) => target_ips(v.drop_last()).push(ip),
            Target::Name(_) => target_ips(v.drop_last()),
        }
    }
}

/// The first name among targets.
pub open spec fn first_name(v: Seq<Target>) -> Seq<char>
    decreases v.len(),
{
    if v.len() == 0 {
        Seq::empty()
    } else {
        match v[0] {
            Target::Name(n) => n,
            Target::Ip(_) => first_name(v.drop_first()),
        }
    }
}

fn ips_of(v: &Vec<Answer>) -> (r: Vec<IpAddr>)
    ensures
        r@ == target_ips(target_views(v@)),
{
    let ghost all = target_views(v@);
    let mut out: Vec<IpAddr> = Vec::new();
    let mut i: usize = 0;
    assert(all.subrange(0, 0) =~= Seq::<Target>::empty());
    assert(out@ =~= target_ips(all.subrange(0, 0)));
    while i < v.len()
        invariant
            all == target_views(v@),
            i <= v@.len(),
            out@ == target_ips(all.subrange(0, i as int)),
        decreases v@.len() - i,
    {
        let ghost u = all.subrange(0, i + 1);
        assert(u.drop_last() =~= all.subrange(0, i as int));
        assert(u.last() == v@[i as int]@);
        match &v[i] {
            Answer::Ip(ip) => {
                out.push(*ip);
            },
            Answer::Name(_) => {},
        }
        i += 1;
    }
    assert(all.subrange(0, i as int) =~= all);
    out
}

fn name_of(v: &Vec<Answer>) -> (r: String)
    ensures
        r@ == first_name(target_views(v@)),
{
    let ghost all = target_views(v@);
    let mut i: usize = 0;
    assert(all.subrange(0, all.len() as int) =~= all);
    while i < v.len()
        invariant
            all == target_views(v@),
            i <= v@.len(),
            first_name(all) == first_name(all.subrange(i as int, all.len() as int)),
        decreases v@.len() - i,
    {
        let ghost rest = all.subrange(i as int, all.len() as int);
        assert(rest.drop_first() =~= all.subrange(i + 1, all.len() as int));
        assert(rest[0] == v@[i as int]@);
        match &v[i] {
            Answer::Name(n) => {
                return owned(n);
            },
            Answer::Ip(_) => {},
        }
        i += 1;
    }
    assert(all.subrange(i as int, all.len() as int) =~= Seq::<Target>::empty());
    let v: Vec<char> = Vec::new();
    assert(v@ =~= Seq::<char>::empty());
    string_of(&v)
}

fn texts_of(v: &Vec<Answer>) -> (r: Vec<String>)
    ensures
        string_views(r@) == target_texts(target_views(v@)),
{
    let mut out: Vec<String> = Vec::new();
    let ghost all = target_texts(target_views(v@));
    let mut i: usize = 0;
    assert(string_views(out@) =~= all.subrange(0, 0));
    while i < v.len()
        invariant
            all == target_texts(target_views(v@)),
            i <= v@.len(),
            string_views(out@) == all.subrange(0, i as int),
        decreases v@.len() - i,
    {
        let ghost before = string_views(out@);
        out.push(
            match &v[i] {
                Answer::Ip(ip) => ip.text(),
                Answer::Name(n) => owned(n),
            },
        );
        assert(string_views(out@) =~= before.push(v@[i as int]@.text()));
        assert(string_views(out@) =~= all.subrange(0, i + 1));
        i += 1;
    }
    assert(string_views(out@) =~= all);
    out
}

/// A question of a client, as it is worked on.
struct Ask<'a> {
    query: &'a [u8],
    id: u16,
    rd: bool,
    name: &'a str,
    qtype: u16,
    client: IpAddr,
    started: Instant,
}

impl<'a> View for Ask<'a> {
    type V = Inquiry;

    closed spec fn view(&self) -> Inquiry {
        Inquiry {
            query: self.query@,
            id: self.id,
            rd: self.rd,
            name: self.name@,
            qtype: self.qtype,
            client: self.client,
            started: self.started,
        }
    }
}

impl<'a> Ask<'a> {
    /// The query can be read, and asks something.
    spec fn wf(&self) -> bool {
        dns_question(self.query@) matches Some(q) && q.2.len() > 0 && q.0 == self.id
    }

    fn entry(
        &self,
        at: Moment,
        outcome: Outcome,
        rule: Option<String>,
        source: Option<String>,
        upstream: Option<String>,
    ) -> (r: LogEntry)
        ensures
            r@ == noted(self@, at, outcome, opt(rule), opt(source), opt(upstream)),
    {
        LogEntry {
            time: at.time,
            client: self.client.text(),
            name: owned(self.name),
            qtype: qtype_name(self.qtype),
            outcome,
            rule,
            source,
            upstream,
            elapsed_ms: at.now.duration_since(self.started).as_millis(),
        }
    }

    fn pending(&self, ask: Vec<u8>, ask_name: &str, purpose: Purpose) -> (r: Pending)
        ensures
            r@ == (Wait {
                ask: ask@,
                ask_name: ask_name@,
                query: self@.query,
                rd: self@.rd,
                name: self@.name,
                qtype: self@.qtype,
                client: self@.client,
                started: self@.started,
                purpose,
            }),
    {
        Pending {
            ask,
            ask_name: owned(ask_name),
            query: copy_of(self.query),
            recursion_desired: self.rd,
            name: owned(self.name),
            qtype: self.qtype,
            client: self.client,
            started: self.started,
            purpose,
        }
    }

    /// A reply with a code and nothing else.
    fn coded(&self, code: u8) -> (r: Option<Vec<u8>>)
        requires
            self.wf(),
            code < 11,
        ensures
            opt_reply(r) == dns_reply(self@.query, self@.rd, code, Seq::empty(), 0),
            r is Some,
    {
        let none: [(bool, u128); 0] = [];
        assert(none@ =~= Seq::<(bool, u128)>::empty());
        write_reply(self.query, self.rd, code, &none, 0)
    }

    /// A reply with those addresses that answer the question.
    fn addressed(&self, ips: &[IpAddr], ttl: u32) -> (r: Option<Vec<u8>>)
        requires
            self.wf(),
        ensures
            opt_reply(r) == dns_reply(self@.query, self@.rd, 0, fitting(ips@, self@.qtype), ttl),
            r is Some,
    {
        write_reply(self.query, self.rd, 0, &fitting_addresses(ips, self.qtype), ttl)
    }
}

impl Dns {
    pub closed spec fn conf(&self) -> Conf {
        Conf { settings: self.settings, rules: self.filter@, rewrites: compiled_views(self.rewrites@) }
    }

    pub closed spec fn memory(&self) -> Memory {
        Memory { cache: self.cache@, records: self.journal@ }
    }

    pub closed spec fn places(&self) -> Seq<Place> {
        places(self.upstreams@)
    }

    pub closed spec fn since(&self) -> Instant {
        self.started
    }

    pub closed spec fn wf(&self) -> bool {
        self.cache.wf() && self.journal.wf()
    }

    fn note(&mut self, e: LogEntry, ms: Option<u64>)
        requires
            old(self).wf(),
        ensures
            final(self).wf(),
            final(self).conf() == old(self).conf(),
            final(self).places() == old(self).places(),
            final(self).since() == old(self).since(),
            final(self).memory() == old(self).conf().note(old(self).memory(), e@, ms),
    {
        let size: usize = self.settings.query_log_size;
        self.journal.record(e, ms, size);
        assert(self.memory() =~= old(self).conf().note(old(self).memory(), e@, ms));
    }

    fn kept(&self, name: &str, qtype: u16, id: u16, now: Instant) -> (r: Option<Vec<u8>>)
        requires
            self.wf(),
        ensures
            opt_reply(r) == self.conf().kept(self.memory(), name@, qtype, id, now),
    {
        if self.settings.cache_size > 0 {
            self.cache.get(name, qtype, id, now)
        } else {
            None
        }
    }

    fn local(&self, name: &str) -> (r: Vec<Answer>)
        ensures
            target_views(r@) == self.conf().local(name@),
    {
        let ghost all = compiled_views(self.rewrites@);
        let mut out: Vec<Answer> = Vec::new();
        let mut i: usize = 0;
        assert(all.subrange(0, 0) =~= Seq::<(Seq<char>, Target)>::empty());
        assert(target_views(out@) =~= rewritten(all.subrange(0, 0), name@));
        while i < self.rewrites.len()
            invariant
                all == compiled_views(self.rewrites@),
                i <= self.rewrites@.len(),
                target_views(out@) == rewritten(all.subrange(0, i as int), name@),
            decreases self.rewrites@.len() - i,
        {
            let ghost u = all.subrange(0, i + 1);
            assert(u.drop_last() =~= all.subrange(0, i as int));
            assert(u.last() == (self.rewrites@[i as int].0@, self.rewrites@[i as int].1@));
            if rewrite_matches(&self.rewrites[i].0, name) {
                let ghost before = target_views(out@);
                let a = match &self.rewrites[i].1 {
                    Answer::Ip(ip) => Answer::Ip(*ip),
                    Answer::Name(n) => Answer::Name(owned(n)),
                };
                assert(a@ == self.rewrites@[i as int].1@);
                out.push(a);
                assert(target_views(out@) =~= before.push(u.last().1));
            }
            i += 1;
        }
        assert(all.subrange(0, i as int) =~= all);
        assert(target_views(out@).len() == out@.len());
        if out.len() > 0 {
            return out;
        }
        let ips = self.filter.answers(name);
        let mut found: Vec<Answer> = Vec::new();
        let mut k: usize = 0;
        assert(target_views(found@) =~= ip_targets(ips@).subrange(0, 0));
        while k < ips.len()
            invariant
                k <= ips@.len(),
                target_views(found@) == ip_targets(ips@).subrange(0, k as int),
            decreases ips@.len() - k,
        {
            let ghost before = target_views(found@);
            found.push(Answer::Ip(ips[k]));
            assert(target_views(found@) =~= before.push(Target::Ip(ips@[k as int])));
            assert(target_views(found@) =~= ip_targets(ips@).subrange(0, k + 1));
            k += 1;
        }
        assert(target_views(found@) =~= ip_targets(ips@));
        found
    }

    fn plan(&self, name: &str) -> (r: Plan)
        ensures
            r@ == self.conf().policy(name@),
    {
        let local = self.local(name);
        assert(target_views(local@).len() == local@.len());
        if local.len() > 0 {
            return Plan::Rewritten(local);
        }
        let n = chars_of(name);
        if chars_are(&n, "ostp") || ends_str(&n, ".ostp") {
            return Plan::Local;
        }
        if self.settings.safe_search {
            if let Some(t) = safe_search_target(name) {
                return Plan::SafeSearch(t);
            }
        }
        if self.settings.block_doh_bypass && is_doh_name(name) {
            return Plan::Bypass;
        }
        if let Some(s) = service_of(name, &self.settings.blocked_services) {
            return Plan::Service(s);
        }
        match self.filter.check(name) {
            Verdict::Blocked(m) => Plan::Blocked(m.rule, m.source),
            Verdict::Allowed(m) => Plan::Excepted(m.rule, m.source),
            Verdict::Unlisted => Plan::Resolved,
        }
    }

    /// What is done with a name, and why, without resolving it.
    pub fn explain(&self, name: &str) -> (r: Explanation)
        ensures
            r@ == reason(plain(trim(name@)), self.conf().policy(plain(trim(name@)))),
    {
        let c = chars_of(name);
        let n = plain_name(&string_of(trimmed(&c)));
        match self.plan(&n) {
            Plan::Rewritten(v) => {
                let mut d = chars_of("answered locally: ");
                put_str(&mut d, &join_strings(&texts_of(&v), ", "));
                Explanation { name: n, outcome: Outcome::Rewritten, detail: string_of(&d), rule: None, source: None }
            },
            Plan::Local => Explanation {
                name: n,
                outcome: Outcome::Blocked,
                detail: owned("a .ostp name without a rewrite: NXDOMAIN, never sent upstream"),
                rule: None,
                source: None,
            },
            Plan::SafeSearch(t) => {
                let mut d = chars_of("safe search: answered with ");
                put_str(&mut d, t);
                Explanation { name: n, outcome: Outcome::SafeSearch, detail: string_of(&d), rule: None, source: None }
            },
            Plan::Bypass => Explanation {
                name: n,
                outcome: Outcome::Blocked,
                detail: owned("a browser's own DNS over HTTPS: blocked so queries stay here"),
                rule: None,
                source: Some(owned("built-in")),
            },
            Plan::Service(s) => {
                let mut d = chars_of("service ");
                put_str(&mut d, s);
                put_str(&mut d, " is blocked");
                Explanation {
                    name: n,
                    outcome: Outcome::BlockedService,
                    detail: string_of(&d),
                    rule: None,
                    source: Some(owned("blocked services")),
                }
            },
            Plan::Blocked(rule, source) => Explanation {
                name: n,
                outcome: Outcome::Blocked,
                detail: owned("blocked by a rule"),
                rule: Some(rule),
                source: Some(source),
            },
            Plan::Excepted(rule, source) => Explanation {
                name: n,
                outcome: Outcome::Allowed,
                detail: owned("allowed by an exception"),
                rule: Some(rule),
                source: Some(source),
            },
            Plan::Resolved => Explanation {
                name: n,
                outcome: Outcome::Allowed,
                detail: owned("no rule matches: resolved upstream"),
                rule: None,
                source: None,
            },
        }
    }

    fn refuse(&self, q: &Ask) -> (r: Option<Vec<u8>>)
        requires
            q.wf(),
        ensures
            opt_reply(r) == self.conf().refusal(q@),
            r is Some,
    {
        match self.settings.blocking_mode {
            BlockingMode::Nxdomain => q.coded(3),
            BlockingMode::Refused => q.coded(5),
            BlockingMode::NullIp => {
                let ips = [IpAddr::V4(0), IpAddr::V6(0)];
                assert(ips@ =~= seq![IpAddr::V4(0), IpAddr::V6(0)]);
                q.addressed(&ips, self.settings.blocked_ttl)
            },
        }
    }

    fn find_cloaked(&self, names: &Vec<String>) -> (r: Option<(String, String, String)>)
        ensures
            match r {
                Some((n, rule, source)) => self.conf().cloaked(string_views(names@), 0) == Some((n@, rule@, source@)),
                None => self.conf().cloaked(string_views(names@), 0) is None,
            },
    {
        let mut i: usize = 0;
        while i < names.len()
            invariant
                i <= names@.len(),
                self.conf().cloaked(string_views(names@), 0) == self.conf().cloaked(string_views(names@), i as int),
            decreases names@.len() - i,
        {
            assert(string_views(names@)[i as int] == names@[i as int]@);
            match self.filter.check(&names[i]) {
                Verdict::Blocked(m) => {
                    return Some((owned(&names[i]), m.rule, m.source));
                },
                Verdict::Allowed(_) => {},
                Verdict::Unlisted => {},
            }
            i += 1;
        }
        None
    }

    fn answer(
        &mut self,
        q: &Ask,
        at: Moment,
        answer: Vec<u8>,
        upstream: Option<String>,
        ms: Option<u64>,
    ) -> (r: Option<Vec<u8>>)
        requires
            old(self).wf(),
            q.wf(),
        ensures
            final(self).wf(),
            final(self).conf() == old(self).conf(),
            final(self).places() == old(self).places(),
            final(self).since() == old(self).since(),
            (final(self).memory(), opt_reply(r)) == old(self).conf().answered(
                old(self).memory(),
                q@,
                at,
                answer@,
                opt(upstream),
                ms,
            ),
            r is Some,
    {
        match self.find_cloaked(&answer_names(&answer)) {
            Some((target, rule, source)) => {
                let mut v = chars_of(&rule);
                put_str(&mut v, " (CNAME ");
                put_str(&mut v, &target);
                put_str(&mut v, ")");
                let e = q.entry(at, Outcome::Blocked, Some(string_of(&v)), Some(source), upstream);
                self.note(e, ms);
                self.refuse(q)
            },
            None => {
                let outcome = if upstream.is_none() {
                    Outcome::Cached
                } else {
                    Outcome::Allowed
                };
                let e = q.entry(at, outcome, None, None, upstream);
                self.note(e, ms);
                Some(answer)
            },
        }
    }

    fn redirect(&self, q: &Ask, target: &str, sub: u16, purpose: Purpose) -> (r: Step)
        requires
            self.wf(),
            q.wf(),
        ensures
            r@ == self.conf().redirected(self.memory(), q@, target@, sub, purpose),
            r matches Step::Reply(b) ==> b is Some,
    {
        let ask = match write_query(sub, true, target, q.qtype) {
            Some(b) => b,
            None => {
                return Step::Reply(q.coded(2));
            },
        };
        match self.kept(target, q.qtype, sub, q.started) {
            Some(a) => Step::Reply(write_alias_reply(q.query, q.rd, target, 300, &a)),
            None => Step::Ask(q.pending(ask, target, purpose)),
        }
    }

    fn decide(&mut self, q: &Ask, at: Moment, sub: u16) -> (r: Step)
        requires
            old(self).wf(),
            q.wf(),
        ensures
            final(self).wf(),
            final(self).conf() == old(self).conf(),
            final(self).places() == old(self).places(),
            final(self).since() == old(self).since(),
            (final(self).memory(), r@) == old(self).conf().decided(old(self).memory(), q@, at, sub),
            r matches Step::Reply(b) ==> b is Some,
    {
        match self.plan(q.name) {
            Plan::Rewritten(targets) => {
                let ips = ips_of(&targets);
                if ips.len() > 0 {
                    self.note(q.entry(at, Outcome::Rewritten, None, None, None), None);
                    return Step::Reply(q.addressed(&ips, 60));
                }
                let step = self.redirect(q, &name_of(&targets), sub, Purpose::Rewrite);
                let waits = match &step {
                    Step::Ask(_) => true,
                    _ => false,
                };
                if !waits {
                    self.note(q.entry(at, Outcome::Rewritten, None, None, None), None);
                }
                step
            },
            Plan::Local => {
                self.note(q.entry(at, Outcome::Blocked, Some(owned(".ostp without a rewrite")), None, None), None);
                Step::Reply(q.coded(3))
            },
            Plan::SafeSearch(t) => {
                let step = self.redirect(q, t, sub, Purpose::SafeSearch);
                self.note(q.entry(at, Outcome::SafeSearch, None, None, None), None);
                step
            },
            Plan::Bypass => {
                self.note(
                    q.entry(
                        at,
                        Outcome::Blocked,
                        Some(owned("browser DNS over HTTPS")),
                        Some(owned("built-in")),
                        None,
                    ),
                    None,
                );
                Step::Reply(q.coded(3))
            },
            Plan::Service(s) => {
                self.note(
                    q.entry(at, Outcome::BlockedService, Some(owned(s)), Some(owned("blocked services")), None),
                    None,
                );
                Step::Reply(self.refuse(q))
            },
            Plan::Blocked(rule, source) => {
                self.note(q.entry(at, Outcome::Blocked, Some(rule), Some(source), None), None);
                Step::Reply(self.refuse(q))
            },
            Plan::Excepted(_, _) => self.resolve(q, at),
            Plan::Resolved => self.resolve(q, at),
        }
    }

    fn resolve(&mut self, q: &Ask, at: Moment) -> (r: Step)
        requires
            old(self).wf(),
            q.wf(),
        ensures
            final(self).wf(),
            final(self).conf() == old(self).conf(),
            final(self).places() == old(self).places(),
            final(self).since() == old(self).since(),
            match old(self).conf().kept(old(self).memory(), q@.name, q@.qtype, q@.id, q@.started) {
                Some(a) => {
                    let (after, reply) = old(self).conf().answered(old(self).memory(), q@, at, a, None, None);
                    final(self).memory() == after && r@ == Progress::Reply(reply)
                },
                None => final(self).memory() == old(self).memory() && r@ == old(self).conf().waits(
                    q@,
                    q@.query,
                    q@.name,
                    Purpose::Resolve,
                ),
            },
            r matches Step::Reply(b) ==> b is Some,
    {
        match self.kept(q.name, q.qtype, q.id, q.started) {
            Some(a) => Step::Reply(self.answer(q, at, a, None, None)),
            None => Step::Ask(q.pending(copy_of(q.query), q.name, Purpose::Resolve)),
        }
    }

    /// A query of a client comes. It is passed over where it is not for the resolver; any
    /// other is answered, now or by `finish`. Where it is answered with another name, the
    /// question for that name goes out with the number `sub`.
    pub fn begin(&mut self, query: &[u8], client: IpAddr, at: Moment, sub: u16) -> (r: Step)
        requires
            old(self).wf(),
        ensures
            final(self).wf(),
            final(self).conf() == old(self).conf(),
            final(self).places() == old(self).places(),
            final(self).since() == old(self).since(),
            (final(self).memory(), r@) == old(self).conf().handled(old(self).memory(), query@, client, at, sub),
            r matches Step::Ask(p) ==> p@.wf(),
            (r is Pass) == (!old(self).conf().settings.enabled && !old(self).conf().settings.intercept_all_port53
                || inquiry(dns_question(query@), query@, client, at) is None),
            r matches Step::Reply(b) ==> b is Some,
    {
        if !self.settings.enabled && !self.settings.intercept_all_port53 {
            return Step::Pass;
        }
        let m = match read_query(query) {
            Some(m) => m,
            None => {
                return Step::Pass;
            },
        };
        assert(asked_views_len(m));
        if m.questions.len() == 0 {
            return Step::Pass;
        }
        let name = plain_name(&m.questions[0].name);
        let q = Ask {
            query,
            id: m.id,
            rd: m.recursion_desired,
            name: &name,
            qtype: m.questions[0].qtype,
            client,
            started: at.now,
        };
        assert(q@ =~= inquiry(dns_question(query@), query@, client, at)->Some_0);
        if self.settings.enabled {
            return self.decide(&q, at, sub);
        }
        match self.kept(q.name, q.qtype, q.id, q.started) {
            Some(a) => {
                self.note(q.entry(at, Outcome::Cached, None, None, None), None);
                Step::Reply(Some(a))
            },
            None => Step::Ask(q.pending(copy_of(query), q.name, Purpose::Forward)),
        }
    }

    /// An upstream has answered, with its name, or has not, for a reason. The client gets a
    /// reply in any case.
    pub fn finish(&mut self, p: Pending, result: Result<(Vec<u8>, String), String>, at: Moment) -> (r: Option<Vec<u8>>)
        requires
            old(self).wf(),
            p@.wf(),
        ensures
            final(self).wf(),
            final(self).conf() == old(self).conf(),
            final(self).places() == old(self).places(),
            final(self).since() == old(self).since(),
            old(self).conf().finishes(
                old(self).memory(),
                p@,
                result_view(result),
                at,
                final(self).memory(),
                opt_reply(r),
            ),
            r is Some,
    {
        let id: u16 = match read_query(&p.query) {
            Some(m) => m.id,
            None => 0,
        };
        let q = Ask {
            query: &p.query,
            id,
            rd: p.recursion_desired,
            name: &p.name,
            qtype: p.qtype,
            client: p.client,
            started: p.started,
        };
        assert(q@ =~= asked_in(p@));
        let ms: u64 = at.now.duration_since(p.started).as_millis();
        let ghost start = self.memory();
        let ghost conf = self.conf();
        let ghost res = result_view(result);
        match result {
            Ok((answer, label)) => {
                self.cache.put(
                    &p.ask_name,
                    p.qtype,
                    &answer,
                    self.settings.cache_size,
                    self.settings.cache_min_ttl,
                    self.settings.cache_max_ttl,
                    at.now,
                );
                let ghost cache = self.cache@;
                assert(conf.retains(start, p@, res, at, cache));
                assert(self.memory() =~= Memory { cache, ..start });
                match p.purpose {
                    Purpose::Forward => {
                        self.note(q.entry(at, Outcome::Forwarded, None, None, Some(label)), Some(ms));
                        Some(answer)
                    },
                    Purpose::Resolve => self.answer(&q, at, answer, Some(label), Some(ms)),
                    Purpose::Rewrite => {
                        self.note(q.entry(at, Outcome::Rewritten, None, None, None), None);
                        write_alias_reply(q.query, q.rd, &p.ask_name, 300, &answer)
                    },
                    Purpose::SafeSearch => write_alias_reply(q.query, q.rd, &p.ask_name, 300, &answer),
                }
            },
            Err(e) => {
                assert(conf.retains(start, p@, res, at, start.cache));
                assert(start =~= Memory { cache: start.cache, ..start });
                match p.purpose {
                    Purpose::Forward | Purpose::Resolve => {
                        self.note(q.entry(at, Outcome::Failed, None, None, Some(e)), None);
                        q.coded(2)
                    },
                    Purpose::Rewrite => {
                        self.note(q.entry(at, Outcome::Rewritten, None, None, None), None);
                        q.coded(2)
                    },
                    Purpose::SafeSearch => q.coded(2),
                }
            },
        }
    }
}

spec fn asked_views_len(m: Query) -> bool {
    crate::dns::wire::asked_views(m.questions@).len() == m.questions@.len()
}

pub open spec fn result_view(r: Result<(Vec<u8>, String), String>) -> Result<(Seq<u8>, Seq<char>), Seq<char>> {
    match r {
        Ok((answer, label)) => Ok((answer@, label@)),
        Err(e) => Err(e@),
    }
}

// ── Settings ─────────────────────────────────────────────────────────────────

/// The resolver goes by these settings, and by the rules of these lists.
pub open spec fn goes_by(c: Conf, s: DnsSettings, lists: Seq<ListText>) -> bool {
    &&& c.settings == s
    &&& c.rules == rules_of(lists).with_source(
        "user rules"@,
        join(string_views(s.user_rules@), "\n"@),
        false,
    )
    &&& c.rewrites == all_compiled(rewrite_views(s.rewrites@))
}

/// The upstreams of settings; none where one of them cannot be read.
pub open spec fn places_of(s: DnsSettings) -> Seq<Place> {
    match read_upstreams(string_views(s.upstreams@)) {
        Ok(v) => v,
        Err(_) => Seq::empty(),
    }
}

/// Whether a connection is encrypted DNS that would pass the filter unread: to port
/// 853, or to port 443 of a public resolver.
pub open spec fn bypasses(target: Seq<char>) -> bool {
    match read_socket(target) {
        Some(a) => a.port == 853 || (a.port == 443 && public_resolver(a.ip)),
        None => rsplit_once(target, ':') matches Some((_, p)) && p == "853"@,
    }
}

/// What a connection by name leads to.
#[derive(Debug, Clone)]
pub enum HostStep {
    /// It goes by name, as it would without the resolver.
    ByName,
    /// It is refused, for a reason.
    Refused(String),
    /// The resolver is asked for an address, of either kind.
    Lookup,
}

/// What a connection by name leads to.
pub enum HostTurn {
    ByName,
    Refused(Seq<char>),
    Lookup,
}

impl View for HostStep {
    type V = HostTurn;

    open spec fn view(&self) -> HostTurn {
        match *self {
            HostStep::ByName => HostTurn::ByName,
            HostStep::Refused(why) => HostTurn::Refused(why@),
            HostStep::Lookup => HostTurn::Lookup,
        }
    }
}

/// Why a connection is refused.
pub open spec fn refusal_text(rule: Option<Seq<char>>) -> Seq<char> {
    "blocked by DNS filtering"@ + match rule {
        Some(r) => " ("@ + r + ")"@,
        None => Seq::empty(),
    }
}

impl Conf {
    /// A client connects by name. A refusal is noted like any blocked query, under
    /// the number `id`.
    pub open spec fn opens(self, m: Memory, host: Seq<char>, client: IpAddr, at: Moment, id: u16) -> (Memory, HostTurn) {
        if !self.settings.enabled || read_ip(host) is Some {
            (m, HostTurn::ByName)
        } else {
            let n = plain(trim(host));
            let e = reason(n, self.policy(n));
            if e.outcome == Outcome::Blocked || e.outcome == Outcome::BlockedService {
                (
                    match dns_query(id, false, host, 1) {
                        Some(q) => self.handled(m, q, client, at, id).0,
                        None => m,
                    },
                    HostTurn::Refused(refusal_text(e.rule)),
                )
            } else {
                (m, HostTurn::Lookup)
            }
        }
    }
}

/// The counters and what they are about.
#[derive(Debug)]
pub struct Stats {
    pub enabled: bool,
    pub since_seconds: u64,
    pub total: u64,
    pub blocked: u64,
    pub rewritten: u64,
    pub cached: u64,
    pub failed: u64,
    pub avg_upstream_ms: Option<u64>,
    pub rules: usize,
    pub lists: Vec<SourceStats>,
    pub upstreams: Vec<String>,
    pub top_domains: Vec<(String, u64)>,
    pub top_blocked: Vec<(String, u64)>,
    pub top_clients: Vec<(String, u64)>,
}

impl Dns {
    /// A resolver with settings, and the texts of its lists.
    pub fn new(settings: DnsSettings, lists: &[ListText], now: Instant) -> (r: Self)
        ensures
            r.wf(),
            exists|s: DnsSettings| #[trigger]
                goes_by(r.conf(), s, lists@) && s.is_normal_of(settings) && r.places() == places_of(s),
            r.memory() == (Memory { cache: Answered::empty(), records: Records::empty() }),
            r.since() == now,
    {
        let s = settings.normalized();
        let upstreams = match parse_upstreams(&s.upstreams) {
            Ok(v) => v,
            Err(_) => {
                let v: Vec<Upstream> = Vec::new();
                assert(places(v@) =~= Seq::<Place>::empty());
                v
            },
        };
        let filter = build_filter(lists, &s.user_rules);
        let rewrites = compile_rewrites(&s.rewrites);
        let r = Dns {
            settings: s,
            filter,
            rewrites,
            upstreams,
            cache: Cache::new(),
            journal: Journal::new(),
            started: now,
        };
        assert(r.memory() =~= (Memory { cache: Answered::empty(), records: Records::empty() }));
        assert(goes_by(r.conf(), r.settings, lists@));
        r
    }

    /// New settings: upstreams, rules and rewrites are made anew, and what was kept
    /// is forgotten. Settings that cannot be used change nothing.
    pub fn apply(&mut self, settings: DnsSettings, lists: &[ListText]) -> (r: Result<(), SettingsError>)
        requires
            old(self).wf(),
        ensures
            final(self).wf(),
            match r {
                Ok(_) => {
                    &&& exists|s: DnsSettings| #[trigger]
                        goes_by(final(self).conf(), s, lists@) && s.is_normal_of(settings) && s.flaw() is None
                            && final(self).places() == places_of(s)
                    &&& final(self).memory() == (Memory { cache: Answered::empty(), ..old(self).memory() })
                    &&& final(self).since() == old(self).since()
                },
                Err(e) => *final(self) == *old(self) && exists|s: DnsSettings| #[trigger]
                    s.is_normal_of(settings) && s.flaw() == Some(e@),
            },
    {
        let s = settings.normalized();
        match s.validate() {
            Ok(_) => {},
            Err(e) => {
                assert(s.is_normal_of(settings));
                return Err(e);
            },
        }
        let upstreams = match parse_upstreams(&s.upstreams) {
            Ok(v) => v,
            Err(_) => {
                proof {
                    lemma_read_without_flaw(string_views(s.upstreams@));
                }
                Vec::new()
            },
        };
        let filter = build_filter(lists, &s.user_rules);
        self.rewrites = compile_rewrites(&s.rewrites);
        self.upstreams = upstreams;
        self.filter = filter;
        self.settings = s;
        self.cache.clear();
        assert(goes_by(self.conf(), self.settings, lists@));
        assert(self.memory() =~= (Memory { cache: Answered::empty(), ..old(self).memory() }));
        Ok(())
    }

    /// The texts of the lists have changed.
    pub fn set_lists(&mut self, lists: &[ListText])
        requires
            old(self).wf(),
        ensures
            final(self).wf(),
            final(self).conf() == (Conf {
                rules: rules_of(lists@).with_source(
                    "user rules"@,
                    join(string_views(old(self).conf().settings.user_rules@), "\n"@),
                    false,
                ),
                ..old(self).conf()
            }),
            final(self).memory() == (Memory { cache: Answered::empty(), ..old(self).memory() }),
            final(self).places() == old(self).places(),
            final(self).since() == old(self).since(),
    {
        self.filter = build_filter(lists, &self.settings.user_rules);
        self.cache.clear();
        assert(self.memory() =~= (Memory { cache: Answered::empty(), ..old(self).memory() }));
    }

    pub fn settings(&self) -> (r: &DnsSettings)
        ensures
            *r == self.conf().settings,
    {
        &self.settings
    }

    pub fn upstreams(&self) -> (r: &Vec<Upstream>)
        ensures
            places(r@) == self.places(),
    {
        &self.upstreams
    }

    pub fn enabled(&self) -> (r: bool)
        ensures
            r == self.conf().settings.enabled,
    {
        self.settings.enabled
    }

    /// Whether the clients' queries are answered at all.
    pub fn intercepts(&self) -> (r: bool)
        ensures
            r == (self.conf().settings.enabled || self.conf().settings.intercept_all_port53),
    {
        self.settings.enabled || self.settings.intercept_all_port53
    }

    /// Whether a connection is refused because it is encrypted DNS that would pass
    /// the filter unread.
    pub fn is_dns_bypass(&self, target: &str) -> (r: bool)
        ensures
            r == (self.conf().settings.enabled && self.conf().settings.block_doh_bypass && bypasses(target@)),
    {
        if !self.settings.enabled || !self.settings.block_doh_bypass {
            return false;
        }
        match socket_of(target) {
            Some(a) => a.port == 853 || (a.port == 443 && is_public_resolver(a.ip)),
            None => {
                let c = chars_of(target);
                match rcut(&c, ':') {
                    Some((_, p)) => chars_are(p, "853"),
                    None => false,
                }
            },
        }
    }

    /// A client connects by name.
    pub fn open_host(&mut self, host: &str, client: IpAddr, at: Moment, id: u16) -> (r: HostStep)
        requires
            old(self).wf(),
        ensures
            final(self).wf(),
            final(self).conf() == old(self).conf(),
            final(self).places() == old(self).places(),
            final(self).since() == old(self).since(),
            (final(self).memory(), r@) == old(self).conf().opens(old(self).memory(), host@, client, at, id),
    {
        if !self.settings.enabled || ip_of(host).is_some() {
            return HostStep::ByName;
        }
        let e = self.explain(host);
        let blocked = match e.outcome {
            Outcome::Blocked | Outcome::BlockedService => true,
            _ => false,
        };
        if !blocked {
            return HostStep::Lookup;
        }
        if let Some(q) = write_query(id, false, host, 1) {
            let _ = self.begin(&q, client, at, id);
        }
        let mut v = chars_of("blocked by DNS filtering");
        if let Some(rule) = &e.rule {
            put_str(&mut v, " (");
            put_str(&mut v, rule);
            put_str(&mut v, ")");
        }
        assert(v@ =~= refusal_text(opt(e.rule)));
        HostStep::Refused(string_of(&v))
    }

    /// The latest queries, the latest first; with a filter, those whose name or
    /// client holds it.
    pub fn query_log(&self, limit: usize, filter: Option<&str>) -> (r: Vec<LogEntry>)
        ensures
            entry_views(r@) == recent(
                self.memory().records.log,
                match filter {
                    Some(f) => Some(f@),
                    None => None,
                },
                limit as int,
            ),
    {
        self.journal.query_log(limit, filter)
    }

    /// Forgets the log and the counters.
    pub fn clear_log(&mut self)
        requires
            old(self).wf(),
        ensures
            final(self).wf(),
            final(self).conf() == old(self).conf(),
            final(self).places() == old(self).places(),
            final(self).since() == old(self).since(),
            final(self).memory() == (Memory { records: Records::empty(), ..old(self).memory() }),
    {
        self.journal.clear();
        assert(self.memory() =~= (Memory { records: Records::empty(), ..old(self).memory() }));
    }

    /// The counters, and the ten most frequent names and clients.
    pub fn stats(&self, now: Instant) -> (r: Stats)
        requires
            self.wf(),
        ensures
            ({
                let t = self.memory().records.tally;
                &&& r.enabled == self.conf().settings.enabled
                &&& r.since_seconds == now.spec_since(self.since()).nanos / 1_000_000_000
                &&& r.total == t.total
                &&& r.blocked == t.blocked
                &&& r.rewritten == t.rewritten
                &&& r.cached == t.cached
                &&& r.failed == t.failed
                &&& r.avg_upstream_ms == if t.upstream_count > 0 {
                    Some((t.upstream_ms_sum / t.upstream_count) as u64)
                } else {
                    None
                }
                &&& r.rules == if crate::dns::filter::total_rules(self.conf().rules.sources) <= usize::MAX {
                    crate::dns::filter::total_rules(self.conf().rules.sources)
                } else {
                    usize::MAX as int
                }
                &&& crate::dns::filter::source_views(r.lists@) == self.conf().rules.sources
                &&& r.upstreams@.len() == self.places().len()
                &&& forall|i: int| 0 <= i < r.upstreams@.len() ==> (#[trigger] r.upstreams@[i])@ == self.places()[i].text()
                &&& is_top(t.domains, 10, count_views(r.top_domains@))
                &&& is_top(t.blocked_domains, 10, count_views(r.top_blocked@))
                &&& is_top(t.clients, 10, count_views(r.top_clients@))
            }),
    {
        let names = labels(&self.upstreams);
        assert(places(self.upstreams@).len() == self.upstreams@.len());
        assert forall|i: int| 0 <= i < names@.len() implies (#[trigger] names@[i])@ == self.places()[i].text() by {}
        Stats {
            enabled: self.settings.enabled,
            since_seconds: now.duration_since(self.started).as_secs(),
            total: self.journal.total(),
            blocked: self.journal.blocked(),
            rewritten: self.journal.rewritten(),
            cached: self.journal.cached(),
            failed: self.journal.failed(),
            avg_upstream_ms: self.journal.avg_upstream_ms(),
            rules: self.filter.rule_count(),
            lists: self.filter.source_stats(),
            upstreams: names,
            top_domains: self.journal.top_domains(10),
            top_blocked: self.journal.top_blocked(10),
            top_clients: self.journal.top_clients(10),
        }
    }
}

/// The query for an address of a host: for one of a kind, by the number of its
/// type.
pub fn host_query(host: &str, qtype: u16, id: u16) -> (r: Option<Vec<u8>>)
    ensures
        opt_reply(r) == dns_query(id, true, host@, qtype),
{
    write_query(id, true, host, qtype)
}

/// The address that an answer gives for a host.
pub fn host_address(answer: &[u8]) -> (r: Option<IpAddr>)
    ensures
        r == address_in(answer@),
{
    answer_address(answer)
}

/// What is done next about the address of a host.
#[derive(Debug)]
pub enum HostLookup {
    /// This query is made.
    Ask(Vec<u8>),
    /// This is the address.
    Found(IpAddr),
    /// There is none: the host goes by its name.
    ByName,
}

/// What is done next about the address of a host.
pub enum HostMove {
    Ask(Seq<u8>),
    Found(IpAddr),
    ByName,
}

impl View for HostLookup {
    type V = HostMove;

    open spec fn view(&self) -> HostMove {
        match *self {
            HostLookup::Ask(q) => HostMove::Ask(q@),
            HostLookup::Found(ip) => HostMove::Found(ip),
            HostLookup::ByName => HostMove::ByName,
        }
    }
}

pub open spec fn reply_views(v: Seq<Option<Vec<u8>>>) -> Seq<Option<Seq<u8>>> {
    Seq::new(v.len(), |i: int| opt_reply(v[i]))
}

/// The types that are asked for in turn: an IPv4 address, then an IPv6 address.
pub open spec fn host_type(asked: int) -> Option<u16> {
    if asked == 0 {
        Some(1)
    } else if asked == 1 {
        Some(28)
    } else {
        None
    }
}

/// What is done next about the address of a host, after the replies so far, from the `i`th
/// on: the first address in them is the host's, and a query that was not answered ends it.
pub open spec fn host_move(host: Seq<char>, replies: Seq<Option<Seq<u8>>>, i: int, id: u16) -> HostMove
    decreases replies.len() - i,
{
    if i < 0 || i >= replies.len() {
        match host_type(replies.len() as int) {
            Some(t) => match dns_query(id, true, host, t) {
                Some(q) => HostMove::Ask(q),
                None => HostMove::ByName,
            },
            None => HostMove::ByName,
        }
    } else {
        match replies[i] {
            Some(a) => match address_in(a) {
                Some(ip) => HostMove::Found(ip),
                None => host_move(host, replies, i + 1, id),
            },
            None => HostMove::ByName,
        }
    }
}

/// What is done next about the address of a host, after the replies so far. A query that is
/// made has the number `id`.
pub fn host_lookup(host: &str, replies: &Vec<Option<Vec<u8>>>, id: u16) -> (r: HostLookup)
    ensures
        r@ == host_move(host@, reply_views(replies@), 0, id),
{
    let mut i: usize = 0;
    while i < replies.len()
        invariant
            i <= replies@.len(),
            host_move(host@, reply_views(replies@), 0, id) == host_move(host@, reply_views(replies@), i as int, id),
        decreases replies@.len() - i,
    {
        assert(reply_views(replies@)[i as int] == opt_reply(replies@[i as int]));
        match &replies[i] {
            Some(a) => {
                if let Some(ip) = host_address(a) {
                    return HostLookup::Found(ip);
                }
            },
            None => {
                return HostLookup::ByName;
            },
        }
        i += 1;
    }
    let n: usize = replies.len();
    if n > 1 {
        return HostLookup::ByName;
    }
    match host_query(
        host,
        if n == 0 {
            1
        } else {
            28
        },
        id,
    ) {
        Some(q) => HostLookup::Ask(q),
        None => HostLookup::ByName,
    }
}

proof fn lemma_read_without_flaw(specs: Seq<Seq<char>>)
    requires
        crate::dns::settings::upstream_flaw(specs) is None,
    ensures
        read_upstreams(specs) is Ok,
{
    lemma_prefix_read(specs, specs.len() as int);
    assert(specs.subrange(0, specs.len() as int) =~= specs);
}

proof fn lemma_prefix_read(specs: Seq<Seq<char>>, k: int)
    requires
        crate::dns::settings::upstream_flaw(specs) is None,
        0 <= k <= specs.len(),
    ensures
        read_upstreams(specs.subrange(0, k)) is Ok,
        crate::dns::settings::upstream_flaw(specs.subrange(k, specs.len() as int)) is None,
    decreases k,
{
    if k == 0 {
        assert(specs.subrange(0, 0) =~= Seq::<Seq<char>>::empty());
        assert(specs.subrange(0, specs.len() as int) =~= specs);
    } else {
        lemma_prefix_read(specs, k - 1);
        assert(specs.subrange(0, k).drop_last() =~= specs.subrange(0, k - 1));
        let rest = specs.subrange(k - 1, specs.len() as int);
        assert(rest.drop_first() =~= specs.subrange(k, specs.len() as int));
        assert(rest[0] == specs[k - 1]);
        assert(specs.subrange(0, k).last() == specs[k - 1]);
    }
}

// ── Laws ─────────────────────────────────────────────────────────────────────

/// With the filter and the interception off, the resolver keeps its hands off.
pub proof fn off_means_hands_off(c: Conf, m: Memory, query: Seq<u8>, client: IpAddr, at: Moment, sub: u16)
    requires
        !c.settings.enabled,
        !c.settings.intercept_all_port53,
    ensures
        c.handled(m, query, client, at, sub) == (m, Progress::Pass),
{
}

/// A name that is explained as blocked is refused at once: no upstream is asked, and
/// the log says so.
pub proof fn explained_blocks_are_refused(c: Conf, m: Memory, query: Seq<u8>, client: IpAddr, at: Moment, sub: u16)
    requires
        c.settings.enabled,
        inquiry(dns_question(query), query, client, at) matches Some(q) && {
            let o = reason(q.name, c.policy(q.name)).outcome;
            o == Outcome::Blocked || o == Outcome::BlockedService
        },
    ensures
        c.handled(m, query, client, at, sub).1 is Reply,
        c.handled(m, query, client, at, sub).0.cache == m.cache,
        c.handled(m, query, client, at, sub).0.records.tally.blocked == crate::server::users::wrapped(
            m.records.tally.blocked + 1,
        ),
        c.settings.query_log_size > 0 ==> c.handled(m, query, client, at, sub).0.records.log.last().outcome == reason(
            inquiry(dns_question(query), query, client, at)->Some_0.name,
            c.policy(inquiry(dns_question(query), query, client, at)->Some_0.name),
        ).outcome,
{
}

/// A local name without a rewrite never leaves: it is answered as one that there is
/// not.
pub proof fn local_names_never_leave(c: Conf, m: Memory, query: Seq<u8>, client: IpAddr, at: Moment, sub: u16)
    requires
        c.settings.enabled,
        inquiry(dns_question(query), query, client, at) matches Some(q) && c.local(q.name).len() == 0 && ends_with(
            q.name,
            ".ostp"@,
        ),
    ensures
        c.handled(m, query, client, at, sub).1 == Progress::Reply(
            dns_reply(
                query,
                inquiry(dns_question(query), query, client, at)->Some_0.rd,
                3,
                Seq::empty(),
                0,
            ),
        ),
{
}

/// An answer that leads to a blocked name is not given.
pub proof fn cloaked_answers_are_refused(
    c: Conf,
    m: Memory,
    q: Inquiry,
    at: Moment,
    answer: Seq<u8>,
    upstream: Option<Seq<char>>,
    ms: Option<u64>,
    i: int,
)
    requires
        0 <= i < names_in(answer).len(),
        c.rules.rule_on(names_in(answer)[i]) is Blocked,
    ensures
        c.answered(m, q, at, answer, upstream, ms).1 == c.refusal(q),
{
    lemma_cloaked(c, names_in(answer), 0, i);
}

proof fn lemma_cloaked(c: Conf, names: Seq<Seq<char>>, j: int, i: int)
    requires
        0 <= j <= i < names.len(),
        c.rules.rule_on(names[i]) is Blocked,
    ensures
        c.cloaked(names, j) is Some,
    decreases i - j,
{
    if j < i {
        lemma_cloaked(c, names, j + 1, i);
    }
}

/// Every query that is answered at once is counted once, and one that waits for an
/// upstream is counted when that has answered, or has not; one that is answered with
/// safe search is counted when it comes.
pub proof fn queries_are_counted_once(
    c: Conf,
    m: Memory,
    query: Seq<u8>,
    client: IpAddr,
    at: Moment,
    sub: u16,
    result: Result<(Seq<u8>, Seq<char>), Seq<char>>,
    later: Moment,
    after: Memory,
    reply: Option<Seq<u8>>,
)
    ensures
        ({
            let (n, p) = c.handled(m, query, client, at, sub);
            let one = crate::server::users::wrapped(m.records.tally.total + 1);
            match p {
                Progress::Pass => n == m,
                Progress::Reply(_) => n.records.tally.total == one,
                Progress::Ask(w) => c.finishes(n, w, result, later, after, reply) ==> after.records.tally.total == one,
            }
        }),
{
}

/// A name that no rewrite, no rule and no built-in knows is left to the upstreams, and
/// asked as it came.
pub proof fn other_names_are_resolved(c: Conf, m: Memory, query: Seq<u8>, client: IpAddr, at: Moment, sub: u16)
    requires
        c.settings.enabled,
        c.settings.cache_size == 0,
        inquiry(dns_question(query), query, client, at) matches Some(q) && c.policy(q.name) is Resolved,
    ensures
        c.handled(m, query, client, at, sub).0 == m,
        c.handled(m, query, client, at, sub).1 matches Progress::Ask(w) && w.ask == query && w.purpose
            == Purpose::Resolve,
{
}

/// A rewrite to an address answers with it, and any other is for another name; names are taken
/// without spaces round them.
pub proof fn rewrites_lead_to_addresses_or_names(v: Seq<(Seq<char>, Seq<char>)>, i: int)
    requires
        0 <= i < v.len(),
    ensures
        all_compiled(v).len() == v.len(),
        all_compiled(v)[i].0 == plain(trim(v[i].0)),
        read_ip(trim(v[i].1)) matches Some(ip) ==> all_compiled(v)[i].1 == Target::Ip(ip),
        read_ip(trim(v[i].1)) is None ==> all_compiled(v)[i].1 == Target::Name(plain(trim(v[i].1))),
{
}

/// An entry of the log says when the question came, from whom, for what, what became of it and
/// how many milliseconds that took.
pub proof fn entries_say_what_was_asked(
    q: Inquiry,
    at: Moment,
    outcome: Outcome,
    rule: Option<Seq<char>>,
    source: Option<Seq<char>>,
    upstream: Option<Seq<char>>,
)
    ensures
        ({
            let e = noted(q, at, outcome, rule, source, upstream);
            &&& e.time == at.time && e.client == show_ip(q.client) && e.name == q.name && e.outcome == outcome
            &&& e.rule == rule && e.source == source && e.upstream == upstream
            &&& at.now.nanos >= q.started.nanos ==> e.elapsed_ms == (at.now.nanos - q.started.nanos) / 1_000_000
            &&& at.now.nanos < q.started.nanos ==> e.elapsed_ms == 0
            &&& q.qtype == 1 ==> e.qtype == "A"@
            &&& q.qtype == 28 ==> e.qtype == "AAAA"@
            &&& q.qtype == 65 ==> e.qtype == "HTTPS"@
            &&& q.qtype > 255 ==> e.qtype == "TYPE"@ + decimal(q.qtype as nat)
        }),
{
}

} // verus!
