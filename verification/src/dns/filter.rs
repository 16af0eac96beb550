//! Block and allow rules: adblock-style DNS syntax and hosts files.
//!
//! `||example.org^` is the domain and its subdomains, `|example.org^` only that
//! name, a bare `example.org` the domain with its subdomains. `*` stands for any
//! run of characters, `@@` begins an exception, `$important` makes a rule
//! important. A hosts line with no real address (`0.0.0.0 example.org`) blocks
//! that name, one with a real address answers with it. Rules with other modifiers
//! and `/regex/` rules are counted, and not applied.

use vstd::hash_map::StringHashMap;
use vstd::prelude::*;
use vstd::slice::slice_subrange;

use crate::dns::glob::{glob_chars, matches_glob};
use crate::net::{lemma_address_shaped, parse_ip, read_ip, IpAddr};
use crate::text::{
    alnum, begins_str, chars_are, chars_of, contains, cut, ends_str, ends_with, find_char, has_char, holds_char,
    holds_str, is_alnum, is_hex, is_white, lemma_find_char, lemma_find_char_is, lemma_find_char_none, lemma_first_word, lemma_one_word,
    lemma_space_before, lines, lines_of, lower, owned, pieces, position, put_chars, put_str, split, split_once, starts_with, string_of, string_views, to_lower, trim,
    trim_end_char, trimmed, views, without_trailing, words, words_of,
};

verus! {

/// How much a rule counts for.
#[derive(Debug, Clone, Copy, PartialEq, Eq, Structural)]
pub enum Kind {
    Block,
    Allow,
    Important,
}

/// The rule that decided.
#[derive(Debug, Clone)]
pub struct Match {
    /// The rule as it matched, for example `||ads.example.org^`.
    pub rule: String,
    /// The list that it came from.
    pub source: String,
}

#[derive(Debug, Clone)]
pub enum Verdict {
    Blocked(Match),
    Allowed(Match),
    Unlisted,
}

/// What the rules say of a name: the rule and where it came from.
pub enum Ruling {
    Blocked(Seq<char>, Seq<char>),
    Allowed(Seq<char>, Seq<char>),
    Unlisted,
}

impl View for Verdict {
    type V = Ruling;

    open spec fn view(&self) -> Ruling {
        match *self {
            Verdict::Blocked(m) => Ruling::Blocked(m.rule@, m.source@),
            Verdict::Allowed(m) => Ruling::Allowed(m.rule@, m.source@),
            Verdict::Unlisted => Ruling::Unlisted,
        }
    }
}

/// How many rules a list gave.
#[derive(Debug, Clone)]
pub struct SourceStats {
    pub name: String,
    pub rules: usize,
    pub unsupported: usize,
}

/// How many rules a list gave.
pub struct Source {
    pub name: Seq<char>,
    pub rules: int,
    pub unsupported: int,
}

impl View for SourceStats {
    type V = Source;

    open spec fn view(&self) -> Source {
        Source { name: self.name@, rules: self.rules as int, unsupported: self.unsupported as int }
    }
}

// ── Lines ────────────────────────────────────────────────────────────────────

pub open spec fn domain_char(c: char) -> bool {
    is_alnum(c) || c == '-' || c == '.' || c == '_'
}

pub open spec fn domain_shaped(s: Seq<char>) -> bool {
    &&& 0 < s.len() <= 253
    &&& has_char(s, '.')
    &&& s[0] != '.'
    &&& s.last() != '.'
    &&& forall|i: int| 0 <= i < s.len() ==> domain_char(#[trigger] s[i])
}

pub open spec fn pattern_shaped(s: Seq<char>) -> bool {
    forall|i: int| 0 <= i < s.len() ==> domain_char(#[trigger] s[i]) || s[i] == '*'
}

/// What stands before the first occurrence of a text; all where there is none.
pub open spec fn before_str(s: Seq<char>, p: Seq<char>) -> Seq<char>
    decreases s.len(),
{
    if s.len() == 0 || starts_with(s, p) {
        Seq::empty()
    } else {
        seq![s[0]] + before_str(s.drop_first(), p)
    }
}

/// Names that every hosts file has.
pub open spec fn hosts_own(n: Seq<char>) -> bool {
    ||| n == "localhost"@
    ||| n == "localhost.localdomain"@
    ||| n == "local"@
    ||| n == "broadcasthost"@
    ||| n == "ip6-localhost"@
    ||| n == "ip6-loopback"@
    ||| n == "0.0.0.0"@
}

/// The names of a hosts line, in lower case, without those that every file has.
pub open spec fn host_names(w: Seq<Seq<char>>) -> Seq<Seq<char>>
    decreases w.len(),
{
    if w.len() == 0 {
        Seq::empty()
    } else {
        let n = lower(w.last());
        if hosts_own(n) {
            host_names(w.drop_last())
        } else {
            host_names(w.drop_last()).push(n)
        }
    }
}

/// What a line of a list says.
pub enum Line {
    /// A comment, or a rule that means nothing here.
    Nothing,
    Unsupported,
    Hosts { ip: IpAddr, names: Seq<Seq<char>> },
    Rule { kind: Kind, core: Seq<char>, exact: bool, wild: bool },
}

pub open spec fn is_comment(line: Seq<char>) -> bool {
    ||| line.len() == 0
    ||| line[0] == '!'
    ||| line[0] == '#'
    ||| line[0] == '['
    ||| contains(line, "##"@)
    ||| contains(line, "#@#"@)
    ||| contains(line, "#?#"@)
    ||| contains(line, "#$#"@)
}

pub open spec fn all_important(modifiers: Seq<char>) -> bool {
    forall|i: int|
        0 <= i < split(modifiers, ',').len() ==> trim(#[trigger] split(modifiers, ',')[i]) == "important"@
}

/// A pattern without what marks its ends, and whether it is for one name only.
pub open spec fn stripped(low: Seq<char>) -> (Seq<char>, bool) {
    if starts_with(low, "||"@) {
        (trim_end_char(trim_end_char(low.subrange(2, low.len() as int), '|'), '^'), false)
    } else if starts_with(low, "|"@) {
        (trim_end_char(trim_end_char(low.subrange(1, low.len() as int), '|'), '^'), true)
    } else {
        (trim_end_char(low, '^'), false)
    }
}

/// A rule in adblock syntax.
pub open spec fn read_rule(line: Seq<char>, force_allow: bool) -> Line {
    let excepted = starts_with(line, "@@"@);
    let body = if excepted {
        line.subrange(2, line.len() as int)
    } else {
        line
    };
    let (pattern, modifiers) = match split_once(body, '$') {
        Some((p, m)) => (p, Some(m)),
        None => (body, None),
    };
    if (modifiers matches Some(m) && !all_important(m)) || (pattern.len() > 1 && pattern[0] == '/' && pattern.last()
        == '/') {
        Line::Unsupported
    } else {
        let kind = if excepted || force_allow {
            Kind::Allow
        } else if modifiers is Some {
            Kind::Important
        } else {
            Kind::Block
        };
        let (core, exact) = stripped(lower(pattern));
        if has_char(core, '*') {
            if pattern_shaped(core) {
                Line::Rule { kind, core, exact, wild: true }
            } else {
                Line::Unsupported
            }
        } else if domain_shaped(core) {
            Line::Rule { kind, core, exact, wild: false }
        } else {
            Line::Unsupported
        }
    }
}

/// What a line of a list says; `force_allow` for lists of exceptions.
pub open spec fn read_line(line: Seq<char>, force_allow: bool) -> Line {
    if is_comment(line) {
        Line::Nothing
    } else {
        let l = trim(before_str(line, " #"@));
        let w = words(l);
        let ip = if w.len() > 0 {
            read_ip(w[0])
        } else {
            None
        };
        match ip {
            Some(ip) => {
                let names = host_names(w.drop_first());
                if names.len() == 0 {
                    Line::Nothing
                } else {
                    Line::Hosts { ip, names }
                }
            },
            None => read_rule(l, force_allow),
        }
    }
}

enum ParsedLine {
    Nothing,
    Unsupported,
    Hosts { ip: IpAddr, names: Vec<String> },
    Rule { kind: Kind, core: String, exact: bool, wild: bool },
}

impl View for ParsedLine {
    type V = Line;

    closed spec fn view(&self) -> Line {
        match *self {
            ParsedLine::Nothing => Line::Nothing,
            ParsedLine::Unsupported => Line::Unsupported,
            ParsedLine::Hosts { ip, names } => Line::Hosts { ip, names: string_views(names@) },
            ParsedLine::Rule { kind, core, exact, wild } => Line::Rule { kind, core: core@, exact, wild },
        }
    }
}

fn is_domain_char(c: char) -> (r: bool)
    ensures
        r == domain_char(c),
{
    alnum(c) || c == '-' || c == '.' || c == '_'
}

fn is_domain(s: &[char]) -> (r: bool)
    ensures
        r == domain_shaped(s@),
{
    let n: usize = s.len();
    if n == 0 || n > 253 || !holds_char(s, '.') || s[0] == '.' || s[n - 1] == '.' {
        return false;
    }
    let mut i: usize = 0;
    while i < n
        invariant
            n == s@.len(),
            i <= n,
            forall|k: int| 0 <= k < i ==> domain_char(#[trigger] s@[k]),
        decreases n - i,
    {
        if !is_domain_char(s[i]) {
            return false;
        }
        i += 1;
    }
    true
}

fn is_pattern(s: &[char]) -> (r: bool)
    ensures
        r == pattern_shaped(s@),
{
    let mut i: usize = 0;
    while i < s.len()
        invariant
            i <= s@.len(),
            forall|k: int| 0 <= k < i ==> domain_char(#[trigger] s@[k]) || s@[k] == '*',
        decreases s@.len() - i,
    {
        if !is_domain_char(s[i]) && s[i] != '*' {
            return false;
        }
        i += 1;
    }
    true
}

fn cut_before(s: &[char], p: &str) -> (r: Vec<char>)
    ensures
        r@ == before_str(s@, p@),
{
    let n: usize = s.len();
    let mut out: Vec<char> = Vec::new();
    let mut i: usize = 0;
    assert(s@.subrange(0, n as int) =~= s@);
    assert(out@ + before_str(s@, p@) =~= before_str(s@, p@));
    while i < n
        invariant
            n == s@.len(),
            i <= n,
            out@ + before_str(s@.subrange(i as int, n as int), p@) == before_str(s@, p@),
        decreases n - i,
    {
        let rest = slice_subrange(s, i, n);
        if begins_str(rest, p) {
            assert(out@ + Seq::<char>::empty() =~= out@);
            return out;
        }
        assert(rest@.drop_first() =~= s@.subrange(i + 1, n as int));
        let ghost before = out@;
        out.push(s[i]);
        assert(before + (seq![rest@[0]] + before_str(rest@.drop_first(), p@)) =~= out@ + before_str(
            rest@.drop_first(),
            p@,
        ));
        i += 1;
    }
    assert(out@ + Seq::<char>::empty() =~= out@);
    out
}

fn is_hosts_own(n: &[char]) -> (r: bool)
    ensures
        r == hosts_own(n@),
{
    chars_are(n, "localhost") || chars_are(n, "localhost.localdomain") || chars_are(n, "local") || chars_are(
        n,
        "broadcasthost",
    ) || chars_are(n, "ip6-localhost") || chars_are(n, "ip6-loopback") || chars_are(n, "0.0.0.0")
}

fn names_of(w: &Vec<Vec<char>>) -> (r: Vec<String>)
    requires
        w@.len() > 0,
    ensures
        string_views(r@) == host_names(views(w@).drop_first()),
{
    let ghost all = views(w@).drop_first();
    let mut out: Vec<String> = Vec::new();
    let mut i: usize = 1;
    assert(all.subrange(0, 0) =~= Seq::<Seq<char>>::empty());
    assert(string_views(out@) =~= host_names(all.subrange(0, 0)));
    while i < w.len()
        invariant
            all == views(w@).drop_first(),
            1 <= i <= w@.len(),
            string_views(out@) == host_names(all.subrange(0, i - 1)),
        decreases w@.len() - i,
    {
        let ghost u = all.subrange(0, i as int);
        assert(u.drop_last() =~= all.subrange(0, i - 1));
        assert(u.last() == w@[i as int]@);
        let n = to_lower(&w[i]);
        if !is_hosts_own(&n) {
            let ghost before = out@;
            out.push(string_of(&n));
            assert(string_views(out@) =~= string_views(before).push(n@));
        }
        i += 1;
    }
    assert(all.subrange(0, i - 1) =~= all);
    out
}

fn only_important(modifiers: &[char]) -> (r: bool)
    ensures
        r == all_important(modifiers@),
{
    let parts = pieces(modifiers, ',');
    let mut i: usize = 0;
    while i < parts.len()
        invariant
            views(parts@) == split(modifiers@, ','),
            i <= parts@.len(),
            forall|k: int| 0 <= k < i ==> trim(#[trigger] views(parts@)[k]) == "important"@,
        decreases parts@.len() - i,
    {
        if !chars_are(trimmed(&parts[i]), "important") {
            assert(trim(views(parts@)[i as int]) != "important"@);
            return false;
        }
        i += 1;
    }
    true
}

fn strip(low: &[char]) -> (r: (&[char], bool))
    ensures
        (r.0@, r.1) == stripped(low@),
{
    let n: usize = low.len();
    proof {
        reveal_strlit("||");
        reveal_strlit("|");
    }
    if begins_str(low, "||") {
        (without_trailing(without_trailing(slice_subrange(low, 2, n), '|'), '^'), false)
    } else if begins_str(low, "|") {
        (without_trailing(without_trailing(slice_subrange(low, 1, n), '|'), '^'), true)
    } else {
        (without_trailing(low, '^'), false)
    }
}

fn parse_rule(line: &[char], force_allow: bool) -> (r: ParsedLine)
    ensures
        r@ == read_rule(line@, force_allow),
{
    proof {
        reveal_strlit("@@");
    }
    let n: usize = line.len();
    let excepted = begins_str(line, "@@");
    let body = if excepted {
        slice_subrange(line, 2, n)
    } else {
        line
    };
    let (pattern, important) = match cut(body, '$') {
        Some((p, m)) => {
            if !only_important(m) {
                return ParsedLine::Unsupported;
            }
            (p, true)
        },
        None => (body, false),
    };
    let len: usize = pattern.len();
    if len > 1 && pattern[0] == '/' && pattern[len - 1] == '/' {
        return ParsedLine::Unsupported;
    }
    let kind = if excepted || force_allow {
        Kind::Allow
    } else if important {
        Kind::Important
    } else {
        Kind::Block
    };
    let low = to_lower(pattern);
    let (core, exact) = strip(&low);
    if holds_char(core, '*') {
        if is_pattern(core) {
            ParsedLine::Rule { kind, core: string_of(core), exact, wild: true }
        } else {
            ParsedLine::Unsupported
        }
    } else if is_domain(core) {
        ParsedLine::Rule { kind, core: string_of(core), exact, wild: false }
    } else {
        ParsedLine::Unsupported
    }
}

fn parse_line(line: &[char], force_allow: bool) -> (r: ParsedLine)
    ensures
        r@ == read_line(line@, force_allow),
{
    if line.len() == 0 || line[0] == '!' || line[0] == '#' || line[0] == '[' {
        return ParsedLine::Nothing;
    }
    if holds_str(line, "##") || holds_str(line, "#@#") || holds_str(line, "#?#") || holds_str(line, "#$#") {
        return ParsedLine::Nothing;
    }
    let front = cut_before(line, " #");
    let l = trimmed(&front);
    let w = words_of(l);
    assert(views(w@).len() == w@.len());
    if w.len() > 0 {
        assert(views(w@)[0] == w@[0]@);
        if let Some(ip) = parse_ip(&w[0]) {
            let names = names_of(&w);
            assert(string_views(names@).len() == names@.len());
            if names.len() == 0 {
                return ParsedLine::Nothing;
            }
            return ParsedLine::Hosts { ip, names };
        }
    }
    parse_rule(l, force_allow)
}

// ── Rules ────────────────────────────────────────────────────────────────────

/// The rules of one kind: for domains with their subdomains, for single names,
/// and patterns. Each holds the number of its list.
#[verifier::ext_equal]
pub struct KindRules {
    pub suffix: Map<Seq<char>, u16>,
    pub exact: Map<Seq<char>, u16>,
    pub wild: Seq<(Seq<char>, bool, u16)>,
}

#[verifier::ext_equal]
pub struct Rules {
    pub block: KindRules,
    pub allow: KindRules,
    pub important: KindRules,
    /// Names that are answered with addresses.
    pub hosts: Map<Seq<char>, Seq<IpAddr>>,
    pub sources: Seq<Source>,
}

impl KindRules {
    pub open spec fn empty() -> KindRules {
        KindRules { suffix: Map::empty(), exact: Map::empty(), wild: Seq::empty() }
    }

    pub open spec fn with(self, core: Seq<char>, exact: bool, wild: bool, source: u16) -> KindRules {
        if wild {
            KindRules { wild: self.wild.push((core, exact, source)), ..self }
        } else if exact {
            KindRules { exact: self.exact.insert(core, source), ..self }
        } else {
            KindRules { suffix: self.suffix.insert(core, source), ..self }
        }
    }
}

/// An address that a hosts line blocks with.
pub open spec fn black_hole(ip: IpAddr) -> bool {
    ip == IpAddr::V4(0) || ip == IpAddr::V6(0) || ip.loopback()
}

/// A name that a hosts line may hold.
pub open spec fn hostable(n: Seq<char>) -> bool {
    domain_shaped(n) || ends_with(n, ".ostp"@) || ends_with(n, ".lan"@)
}

impl Rules {
    pub open spec fn empty() -> Rules {
        Rules {
            block: KindRules::empty(),
            allow: KindRules::empty(),
            important: KindRules::empty(),
            hosts: Map::empty(),
            sources: Seq::empty(),
        }
    }

    pub open spec fn of(self, kind: Kind) -> KindRules {
        match kind {
            Kind::Block => self.block,
            Kind::Allow => self.allow,
            Kind::Important => self.important,
        }
    }

    pub open spec fn with(self, kind: Kind, core: Seq<char>, exact: bool, wild: bool, source: u16) -> Rules {
        let k = self.of(kind).with(core, exact, wild, source);
        match kind {
            Kind::Block => Rules { block: k, ..self },
            Kind::Allow => Rules { allow: k, ..self },
            Kind::Important => Rules { important: k, ..self },
        }
    }

    pub open spec fn answers(self, n: Seq<char>) -> Seq<IpAddr> {
        if self.hosts.contains_key(n) {
            self.hosts[n]
        } else {
            Seq::empty()
        }
    }

    /// One name of a hosts line: it is blocked, or answered with an address. In a list of
    /// exceptions it is an exception in any case.
    pub open spec fn with_host(self, n: Seq<char>, ip: IpAddr, source: u16, force_allow: bool) -> Rules {
        if !hostable(n) {
            self
        } else {
            let a = if black_hole(ip) {
                self
            } else {
                Rules { hosts: self.hosts.insert(n, self.answers(n).push(ip)), ..self }
            };
            if force_allow {
                a.with(Kind::Allow, n, true, false, source)
            } else if black_hole(ip) {
                a.with(Kind::Block, n, true, false, source)
            } else {
                a
            }
        }
    }

    pub open spec fn with_hosts(self, names: Seq<Seq<char>>, ip: IpAddr, source: u16, force_allow: bool) -> Rules
        decreases names.len(),
    {
        if names.len() == 0 {
            self
        } else {
            self.with_hosts(names.drop_last(), ip, source, force_allow).with_host(names.last(), ip, source, force_allow)
        }
    }

    pub open spec fn with_line(self, l: Line, source: u16, force_allow: bool) -> Rules {
        match l {
            Line::Hosts { ip, names } => self.with_hosts(names, ip, source, force_allow),
            Line::Rule { kind, core, exact, wild } => self.with(kind, core, exact, wild, source),
            _ => self,
        }
    }

    pub open spec fn with_lines(self, all: Seq<Seq<char>>, source: u16, force_allow: bool) -> Rules
        decreases all.len(),
    {
        if all.len() == 0 {
            self
        } else {
            self.with_lines(all.drop_last(), source, force_allow).with_line(
                read_line(trim(all.last()), force_allow),
                source,
                force_allow,
            )
        }
    }

    /// With every rule of a list.
    pub open spec fn with_source(self, name: Seq<char>, text: Seq<char>, force_allow: bool) -> Rules {
        let all = lines(text);
        let r = self.with_lines(all, (self.sources.len() % 65536) as u16, force_allow);
        Rules {
            sources: self.sources.push(
                Source { name, rules: applied_lines(all, force_allow), unsupported: unsupported_lines(all, force_allow) },
            ),
            ..r
        }
    }
}

/// Whether one of the names of a hosts line is one that it may hold.
pub open spec fn any_hostable(names: Seq<Seq<char>>) -> bool {
    exists|i: int| 0 <= i < names.len() && hostable(#[trigger] names[i])
}

/// Whether a line adds something.
pub open spec fn applies(l: Line) -> bool {
    match l {
        Line::Hosts { names, .. } => any_hostable(names),
        Line::Rule { .. } => true,
        _ => false,
    }
}

/// Whether a line holds a rule that is not applied.
pub open spec fn unapplied(l: Line) -> bool {
    match l {
        Line::Hosts { names, .. } => !any_hostable(names),
        Line::Unsupported => true,
        _ => false,
    }
}

/// How many lines are rules.
pub open spec fn applied_lines(all: Seq<Seq<char>>, force_allow: bool) -> int
    decreases all.len(),
{
    if all.len() == 0 {
        0
    } else {
        applied_lines(all.drop_last(), force_allow) + if applies(read_line(trim(all.last()), force_allow)) {
            1int
        } else {
            0
        }
    }
}

/// How many lines are rules that are not applied.
pub open spec fn unsupported_lines(all: Seq<Seq<char>>, force_allow: bool) -> int
    decreases all.len(),
{
    if all.len() == 0 {
        0
    } else {
        unsupported_lines(all.drop_last(), force_allow) + if unapplied(read_line(trim(all.last()), force_allow)) {
            1int
        } else {
            0
        }
    }
}

struct RuleSet {
    suffix: StringHashMap<u16>,
    exact: StringHashMap<u16>,
    wild: Vec<(Vec<char>, bool, u16)>,
}

spec fn wild_views(v: Seq<(Vec<char>, bool, u16)>) -> Seq<(Seq<char>, bool, u16)> {
    Seq::new(v.len(), |i: int| (v[i].0@, v[i].1, v[i].2))
}

impl View for RuleSet {
    type V = KindRules;

    closed spec fn view(&self) -> KindRules {
        KindRules { suffix: self.suffix@, exact: self.exact@, wild: wild_views(self.wild@) }
    }
}

impl RuleSet {
    fn new() -> (r: Self)
        ensures
            r@ == KindRules::empty(),
    {
        let r = RuleSet { suffix: StringHashMap::new(), exact: StringHashMap::new(), wild: Vec::new() };
        assert(r@ =~= KindRules::empty());
        r
    }

    fn insert(&mut self, core: String, exact: bool, wild: bool, source: u16)
        ensures
            final(self)@ == old(self)@.with(core@, exact, wild, source),
    {
        if wild {
            self.wild.push((chars_of(&core), exact, source));
        } else if exact {
            self.exact.insert(core, source);
        } else {
            self.suffix.insert(core, source);
        }
        assert(self@ =~= old(self)@.with(core@, exact, wild, source));
    }
}

/// The rules of a resolver.
pub struct Filter {
    block: RuleSet,
    allow: RuleSet,
    important: RuleSet,
    host_answers: StringHashMap<Vec<IpAddr>>,
    pub sources: Vec<SourceStats>,
}

pub open spec fn source_views(v: Seq<SourceStats>) -> Seq<Source> {
    Seq::new(v.len(), |i: int| v[i]@)
}

impl View for Filter {
    type V = Rules;

    closed spec fn view(&self) -> Rules {
        Rules {
            block: self.block@,
            allow: self.allow@,
            important: self.important@,
            hosts: self.host_answers@.map_values(|v: Vec<IpAddr>| v@),
            sources: source_views(self.sources@),
        }
    }
}

fn is_black_hole(ip: IpAddr) -> (r: bool)
    ensures
        r == black_hole(ip),
{
    ip == IpAddr::V4(0) || ip == IpAddr::V6(0) || ip.is_loopback()
}

impl Filter {
    pub fn new() -> (r: Self)
        ensures
            r@ == Rules::empty(),
    {
        let r = Filter {
            block: RuleSet::new(),
            allow: RuleSet::new(),
            important: RuleSet::new(),
            host_answers: StringHashMap::new(),
            sources: Vec::new(),
        };
        assert(r@ =~= Rules::empty());
        r
    }

    /// The addresses that a name is answered with.
    pub fn answers(&self, name: &str) -> (r: Vec<IpAddr>)
        ensures
            r@ == self@.answers(name@),
    {
        match self.host_answers.get(name) {
            Some(v) => vstd::slice::slice_to_vec(v.as_slice()),
            None => {
                let v: Vec<IpAddr> = Vec::new();
                assert(v@ =~= Seq::<IpAddr>::empty());
                v
            },
        }
    }

    fn insert(&mut self, kind: Kind, core: String, exact: bool, wild: bool, source: u16)
        ensures
            final(self)@ == old(self)@.with(kind, core@, exact, wild, source),
            final(self).sources == old(self).sources,
    {
        match kind {
            Kind::Block => self.block.insert(core, exact, wild, source),
            Kind::Allow => self.allow.insert(core, exact, wild, source),
            Kind::Important => self.important.insert(core, exact, wild, source),
        }
        assert(self@ =~= old(self)@.with(kind, core@, exact, wild, source));
    }

    /// Adds one name of a hosts line; false where it is none that a line may hold.
    fn add_host(&mut self, n: &String, ip: IpAddr, source: u16, force_allow: bool) -> (r: bool)
        ensures
            r == hostable(n@),
            final(self)@ == old(self)@.with_host(n@, ip, source, force_allow),
            final(self).sources == old(self).sources,
    {
        let c = chars_of(n);
        if !is_domain(&c) && !ends_str(&c, ".ostp") && !ends_str(&c, ".lan") {
            return false;
        }
        let hole = is_black_hole(ip);
        if !hole {
            let mut v = self.answers(n);
            v.push(ip);
            self.host_answers.insert(owned(n), v);
            assert(self@.hosts =~= old(self)@.hosts.insert(n@, old(self)@.answers(n@).push(ip)));
        }
        let ghost a = self@;
        assert(a =~= if black_hole(ip) {
            old(self)@
        } else {
            Rules { hosts: old(self)@.hosts.insert(n@, old(self)@.answers(n@).push(ip)), ..old(self)@ }
        });
        if force_allow {
            self.insert(Kind::Allow, owned(n), true, false, source);
        } else if hole {
            self.insert(Kind::Block, owned(n), true, false, source);
        }
        assert(self@ =~= old(self)@.with_host(n@, ip, source, force_allow));
        true
    }

    /// What came of a line: something was added, it holds a rule that is not applied, or it
    /// holds none.
    fn add_line(&mut self, line: &[char], source: u16, force_allow: bool) -> (r: Option<bool>)
        ensures
            final(self)@ == old(self)@.with_line(read_line(line@, force_allow), source, force_allow),
            final(self).sources == old(self).sources,
            ({
                let l = read_line(line@, force_allow);
                r == if applies(l) {
                    Some(true)
                } else if unapplied(l) {
                    Some(false)
                } else {
                    None
                }
            }),
    {
        match parse_line(line, force_allow) {
            ParsedLine::Nothing => None,
            ParsedLine::Unsupported => Some(false),
            ParsedLine::Rule { kind, core, exact, wild } => {
                self.insert(kind, core, exact, wild, source);
                Some(true)
            },
            ParsedLine::Hosts { ip, names } => {
                let ghost all = string_views(names@);
                let ghost start = *self;
                let mut i: usize = 0;
                let mut added = false;
                assert(all.subrange(0, 0) =~= Seq::<Seq<char>>::empty());
                while i < names.len()
                    invariant
                        all == string_views(names@),
                        added == exists|k: int| 0 <= k < i && hostable(#[trigger] all[k]),
                        i <= names@.len(),
                        self.sources == start.sources,
                        self@ == start@.with_hosts(all.subrange(0, i as int), ip, source, force_allow),
                    decreases names@.len() - i,
                {
                    let ghost u = all.subrange(0, i + 1);
                    assert(u.drop_last() =~= all.subrange(0, i as int));
                    assert(u.last() == names@[i as int]@);
                    let ghost before = added;
                    let ghost at = i as int;
                    assert(all[at] == names@[at]@);
                    if self.add_host(&names[i], ip, source, force_allow) {
                        assert(hostable(all[at]));
                        added = true;
                    }
                    i += 1;
                    proof {
                        if before {
                            let k = choose|k: int| 0 <= k < at && hostable(#[trigger] all[k]);
                            assert(0 <= k < i && hostable(all[k]));
                        }
                    }
                }
                assert(all.subrange(0, i as int) =~= all);
                assert(added == any_hostable(all));
                Some(added)
            },
        }
    }

    /// Adds every rule of a list; `force_allow` for lists of exceptions.
    pub fn add_source(&mut self, name: &str, text: &str, force_allow: bool)
        ensures
            final(self)@ == old(self)@.with_source(name@, text@, force_allow),
    {
        let source: u16 = (self.sources.len() % 65536) as u16;
        assert(source_views(self.sources@).len() == self.sources@.len());
        let all = lines_of(&chars_of(text));
        let ghost a = views(all@);
        let ghost start = *self;
        let mut rules: usize = 0;
        let mut unsupported: usize = 0;
        let mut i: usize = 0;
        assert(a.subrange(0, 0) =~= Seq::<Seq<char>>::empty());
        while i < all.len()
            invariant
                a == views(all@),
                i <= all@.len(),
                self.sources == start.sources,
                self@ == start@.with_lines(a.subrange(0, i as int), source, force_allow),
                rules == applied_lines(a.subrange(0, i as int), force_allow),
                unsupported == unsupported_lines(a.subrange(0, i as int), force_allow),
                rules <= i,
                unsupported <= i,
            decreases all@.len() - i,
        {
            let ghost u = a.subrange(0, i + 1);
            assert(u.drop_last() =~= a.subrange(0, i as int));
            assert(u.last() == all@[i as int]@);
            match self.add_line(trimmed(&all[i]), source, force_allow) {
                Some(true) => {
                    rules += 1;
                },
                Some(false) => {
                    unsupported += 1;
                },
                None => {},
            }
            i += 1;
        }
        assert(a.subrange(0, i as int) =~= a);
        let ghost before = self.sources@;
        self.sources.push(SourceStats { name: owned(name), rules, unsupported });
        assert(self@.sources =~= source_views(before).push(
            Source { name: name@, rules: rules as int, unsupported: unsupported as int },
        ));
        assert(self@ =~= start@.with_source(name@, text@, force_allow));
    }
}

// ── Checking ─────────────────────────────────────────────────────────────────

/// The closest domain of a name that is in a table.
pub open spec fn suffix_hit(m: Map<Seq<char>, u16>, s: Seq<char>) -> Option<Seq<char>>
    decreases s.len(),
{
    if m.contains_key(s) {
        Some(s)
    } else {
        match find_char(s, '.') {
            Some(i) => if 0 <= i < s.len() {
                suffix_hit(m, s.subrange(i + 1, s.len() as int))
            } else {
                None
            },
            None => None,
        }
    }
}

/// Whether a pattern matches a name, or the name from one of its labels on.
pub open spec fn label_glob(p: Seq<char>, s: Seq<char>) -> bool
    decreases s.len(),
{
    matches_glob(p, s) || match find_char(s, '.') {
        Some(i) => 0 <= i < s.len() && label_glob(p, s.subrange(i + 1, s.len() as int)),
        None => false,
    }
}

pub open spec fn wild_hits(w: (Seq<char>, bool, u16), name: Seq<char>) -> bool {
    if w.1 {
        matches_glob(w.0, name)
    } else {
        label_glob(w.0, name)
    }
}

/// The first pattern that matches a name.
pub open spec fn first_wild(w: Seq<(Seq<char>, bool, u16)>, name: Seq<char>) -> Option<(Seq<char>, bool, u16)>
    decreases w.len(),
{
    if w.len() == 0 {
        None
    } else if wild_hits(w[0], name) {
        Some(w[0])
    } else {
        first_wild(w.drop_first(), name)
    }
}

impl KindRules {
    /// The rule of this kind that a name falls under, as a text, with the number of
    /// its list: for that name, then for the closest domain, then the first pattern.
    pub open spec fn find(self, name: Seq<char>) -> Option<(Seq<char>, u16)> {
        if self.exact.contains_key(name) {
            Some(("|"@ + name + "^"@, self.exact[name]))
        } else {
            match suffix_hit(self.suffix, name) {
                Some(s) => Some(("||"@ + s + "^"@, self.suffix[s])),
                None => match first_wild(self.wild, name) {
                    Some(w) => Some(
                        (
                            (if w.1 {
                                "|"@
                            } else {
                                "||"@
                            }) + w.0 + "^"@,
                            w.2,
                        ),
                    ),
                    None => None,
                },
            }
        }
    }
}

/// A name as rules are looked up by.
pub open spec fn plain_name(name: Seq<char>) -> Seq<char> {
    lower(trim_end_char(name, '.'))
}

impl Rules {
    pub open spec fn source_name(self, i: u16) -> Seq<char> {
        if i < self.sources.len() {
            self.sources[i as int].name
        } else {
            Seq::empty()
        }
    }

    /// What the rules say of a name: important rules beat exceptions, exceptions
    /// beat blocks.
    pub open spec fn rule_on(self, name: Seq<char>) -> Ruling {
        let n = plain_name(name);
        match self.important.find(n) {
            Some((rule, i)) => Ruling::Blocked(rule + "$important"@, self.source_name(i)),
            None => match self.allow.find(n) {
                Some((rule, i)) => Ruling::Allowed("@@"@ + rule, self.source_name(i)),
                None => match self.block.find(n) {
                    Some((rule, i)) => Ruling::Blocked(rule, self.source_name(i)),
                    None => Ruling::Unlisted,
                },
            },
        }
    }
}

fn find_suffix(m: &StringHashMap<u16>, name: &[char]) -> (r: Option<(String, u16)>)
    ensures
        match r {
            Some((s, i)) => suffix_hit(m@, name@) == Some(s@) && m@.contains_key(s@) && m@[s@] == i,
            None => suffix_hit(m@, name@) is None,
        },
{
    let mut s: &[char] = name;
    loop
        invariant
            suffix_hit(m@, name@) == suffix_hit(m@, s@),
        decreases s@.len(),
    {
        let text = string_of(s);
        if let Some(i) = m.get(&text) {
            return Some((text, *i));
        }
        match position(s, '.') {
            Some(p) => {
                let n: usize = s.len();
                s = slice_subrange(s, p + 1, n);
            },
            None => {
                return None;
            },
        }
    }
}

fn glob_labels(p: &[char], name: &[char]) -> (r: bool)
    ensures
        r == label_glob(p@, name@),
{
    let mut s: &[char] = name;
    loop
        invariant
            label_glob(p@, name@) == label_glob(p@, s@),
        decreases s@.len(),
    {
        if glob_chars(p, s) {
            return true;
        }
        match position(s, '.') {
            Some(i) => {
                let n: usize = s.len();
                s = slice_subrange(s, i + 1, n);
            },
            None => {
                return false;
            },
        }
    }
}

fn bracketed(front: &str, core: &[char]) -> (r: Vec<char>)
    ensures
        r@ == front@ + core@ + "^"@,
{
    let mut v = chars_of(front);
    put_chars(&mut v, core);
    put_str(&mut v, "^");
    v
}

impl RuleSet {
    fn find(&self, name: &[char]) -> (r: Option<(Vec<char>, u16)>)
        ensures
            match r {
                Some((rule, i)) => self@.find(name@) == Some((rule@, i)),
                None => self@.find(name@) is None,
            },
    {
        let text = string_of(name);
        if let Some(i) = self.exact.get(&text) {
            return Some((bracketed("|", name), *i));
        }
        if let Some((s, i)) = find_suffix(&self.suffix, name) {
            return Some((bracketed("||", &chars_of(&s)), i));
        }
        let ghost all = self@.wild;
        let mut k: usize = 0;
        assert(all.subrange(0, all.len() as int) =~= all);
        while k < self.wild.len()
            invariant
                all == wild_views(self.wild@),
                all == self@.wild,
                k <= all.len(),
                !self@.exact.contains_key(name@),
                suffix_hit(self@.suffix, name@) is None,
                first_wild(all, name@) == first_wild(all.subrange(k as int, all.len() as int), name@),
            decreases all.len() - k,
        {
            let ghost rest = all.subrange(k as int, all.len() as int);
            assert(rest.drop_first() =~= all.subrange(k + 1, all.len() as int));
            assert(rest[0] == all[k as int]);
            let w = &self.wild[k];
            let hit = if w.1 {
                glob_chars(&w.0, name)
            } else {
                glob_labels(&w.0, name)
            };
            if hit {
                return Some(
                    (
                        bracketed(
                            if w.1 {
                                "|"
                            } else {
                                "||"
                            },
                            &w.0,
                        ),
                        w.2,
                    ),
                );
            }
            k += 1;
        }
        assert(all.subrange(k as int, all.len() as int) =~= Seq::empty());
        None
    }
}

/// How many rules lists gave together.
pub open spec fn total_rules(sources: Seq<Source>) -> int
    decreases sources.len(),
{
    if sources.len() == 0 {
        0
    } else {
        total_rules(sources.drop_last()) + sources.last().rules
    }
}

impl Filter {
    fn source_name(&self, i: u16) -> (r: String)
        ensures
            r@ == self@.source_name(i),
    {
        assert(source_views(self.sources@).len() == self.sources@.len());
        if (i as usize) < self.sources.len() {
            owned(&self.sources[i as usize].name)
        } else {
            let v: Vec<char> = Vec::new();
            assert(v@ =~= Seq::<char>::empty());
            string_of(&v)
        }
    }

    /// What the rules say of a name.
    pub fn check(&self, name: &str) -> (r: Verdict)
        ensures
            r@ == self@.rule_on(name@),
    {
        let c = chars_of(name);
        let n = to_lower(without_trailing(&c, '.'));
        if let Some((rule, i)) = self.important.find(&n) {
            let mut v = rule;
            put_str(&mut v, "$important");
            return Verdict::Blocked(Match { rule: string_of(&v), source: self.source_name(i) });
        }
        if let Some((rule, i)) = self.allow.find(&n) {
            let mut v = chars_of("@@");
            put_chars(&mut v, &rule);
            return Verdict::Allowed(Match { rule: string_of(&v), source: self.source_name(i) });
        }
        if let Some((rule, i)) = self.block.find(&n) {
            return Verdict::Blocked(Match { rule: string_of(&rule), source: self.source_name(i) });
        }
        Verdict::Unlisted
    }

    /// How many rules each list gave.
    pub fn source_stats(&self) -> (r: Vec<SourceStats>)
        ensures
            source_views(r@) == self@.sources,
    {
        let ghost all = source_views(self.sources@);
        let mut out: Vec<SourceStats> = Vec::new();
        let mut i: usize = 0;
        assert(source_views(out@) =~= all.subrange(0, 0));
        while i < self.sources.len()
            invariant
                all == source_views(self.sources@),
                i <= self.sources@.len(),
                source_views(out@) == all.subrange(0, i as int),
            decreases self.sources@.len() - i,
        {
            let ghost before = source_views(out@);
            let s = &self.sources[i];
            out.push(SourceStats { name: owned(&s.name), rules: s.rules, unsupported: s.unsupported });
            assert(source_views(out@) =~= before.push(s@));
            assert(source_views(out@) =~= all.subrange(0, i + 1));
            i += 1;
        }
        assert(source_views(out@) =~= all);
        out
    }

    /// How many rules there are, the largest number where that is too much.
    pub fn rule_count(&self) -> (r: usize)
        ensures
            r == if total_rules(self@.sources) <= usize::MAX {
                total_rules(self@.sources)
            } else {
                usize::MAX as int
            },
    {
        let ghost all = source_views(self.sources@);
        let mut sum: usize = 0;
        let mut i: usize = 0;
        assert(all.subrange(0, 0) =~= Seq::<Source>::empty());
        while i < self.sources.len()
            invariant
                all == source_views(self.sources@),
                i <= self.sources@.len(),
                sum == if total_rules(all.subrange(0, i as int)) <= usize::MAX {
                    total_rules(all.subrange(0, i as int))
                } else {
                    usize::MAX as int
                },
            decreases self.sources@.len() - i,
        {
            let ghost u = all.subrange(0, i + 1);
            assert(u.drop_last() =~= all.subrange(0, i as int));
            assert(u.last() == self.sources@[i as int]@);
            sum = sum.saturating_add(self.sources[i].rules);
            i += 1;
        }
        assert(all.subrange(0, i as int) =~= all);
        sum
    }
}

// ── Laws ─────────────────────────────────────────────────────────────────────

/// An important rule blocks, whatever exceptions there are.
pub proof fn important_rules_beat_exceptions(r: Rules, name: Seq<char>)
    requires
        r.important.find(plain_name(name)) is Some,
    ensures
        r.rule_on(name) is Blocked,
{
}

/// An exception holds against every block that is not important.
pub proof fn exceptions_beat_blocks(r: Rules, name: Seq<char>)
    requires
        r.important.find(plain_name(name)) is None,
        r.allow.find(plain_name(name)) is Some,
    ensures
        r.rule_on(name) is Allowed,
{
}

/// A name that no rule covers is not blocked.
pub proof fn other_names_are_left_alone(r: Rules, name: Seq<char>)
    requires
        r.important.find(plain_name(name)) is None,
        r.block.find(plain_name(name)) is None,
    ensures
        !(r.rule_on(name) is Blocked),
{
}

proof fn lemma_suffix_hit(m: Map<Seq<char>, u16>, x: Seq<char>, d: Seq<char>)
    requires
        m.contains_key(d),
    ensures
        suffix_hit(m, x + seq!['.'] + d) is Some,
    decreases x.len(),
{
    let s = x + seq!['.'] + d;
    assert(suffix_hit(m, d) == Some(d));
    if m.contains_key(s) {
        assert(suffix_hit(m, s) == Some(s));
    } else {
        lemma_find_char(s, '.');
        assert(s[x.len() as int] == '.');
        let i = find_char(s, '.')->Some_0;
        if i == x.len() {
            assert(s.subrange(i + 1, s.len() as int) =~= d);
        } else {
            let y = x.subrange(i + 1, x.len() as int);
            assert(s.subrange(i + 1, s.len() as int) =~= y + seq!['.'] + d);
            lemma_suffix_hit(m, y, d);
        }
    }
}

/// A rule for a domain covers the domain and every name below it.
pub proof fn domains_cover_their_subdomains(k: KindRules, d: Seq<char>, x: Seq<char>)
    requires
        k.suffix.contains_key(d),
    ensures
        k.find(d) is Some,
        k.find(x + seq!['.'] + d) is Some,
{
    lemma_suffix_hit(k.suffix, x, d);
}

/// A rule for one name covers that name and no other.
pub proof fn exact_rules_cover_one_name(k: KindRules, n: Seq<char>, other: Seq<char>)
    requires
        k.exact.dom() == set![n],
        k.suffix == Map::<Seq<char>, u16>::empty(),
        k.wild.len() == 0,
    ensures
        k.find(n) is Some,
        k.find(other) is Some ==> other == n,
{
    assert(k.exact.dom().contains(n));
    lemma_no_suffix(other);
}

proof fn lemma_no_suffix(s: Seq<char>)
    ensures
        suffix_hit(Map::<Seq<char>, u16>::empty(), s) is None,
    decreases s.len(),
{
    lemma_find_char(s, '.');
    if let Some(i) = find_char(s, '.') {
        lemma_no_suffix(s.subrange(i + 1, s.len() as int));
    }
}

/// A domain in lower case.
pub open spec fn plain_domain(d: Seq<char>) -> bool {
    domain_shaped(d) && lower(d) == d
}

proof fn lemma_no_mark(s: Seq<char>, p: Seq<char>, c: char)
    requires
        has_char(p, c),
        !has_char(s, c),
    ensures
        !contains(s, p),
        before_str(s, p) == s,
    decreases s.len(),
{
    let k = choose|k: int| 0 <= k < p.len() && #[trigger] p[k] == c;
    if contains(s, p) {
        let i = choose|i: int| 0 <= i <= s.len() - p.len() && #[trigger] s.subrange(i, i + p.len()) == p;
        assert(s.subrange(i, i + p.len())[k] == s[i + k]);
    }
    if s.len() > 0 {
        if starts_with(s, p) {
            assert(s.subrange(0, p.len() as int)[k] == s[k]);
        }
        let t = s.drop_first();
        assert(!has_char(t, c)) by {
            if has_char(t, c) {
                let i = choose|i: int| 0 <= i < t.len() && #[trigger] t[i] == c;
                assert(s[i + 1] == c);
            }
        }
        lemma_no_mark(t, p, c);
        assert(before_str(s, p) =~= s);
    } else {
        assert(before_str(s, p) =~= s);
    }
}

proof fn lemma_no_comment(l: Seq<char>)
    requires
        l.len() > 0,
        l[0] != '!' && l[0] != '[',
        forall|i: int| 0 <= i < l.len() ==> #[trigger] l[i] != '#',
    ensures
        !is_comment(l),
        before_str(l, " #"@) == l,
{
    reveal_strlit("##");
    reveal_strlit("#@#");
    reveal_strlit("#?#");
    reveal_strlit("#$#");
    reveal_strlit(" #");
    assert(!has_char(l, '#'));
    assert("##"@[0] == '#' && "#@#"@[0] == '#' && "#?#"@[0] == '#' && "#$#"@[0] == '#' && " #"@[1] == '#');
    lemma_no_mark(l, "##"@, '#');
    lemma_no_mark(l, "#@#"@, '#');
    lemma_no_mark(l, "#?#"@, '#');
    lemma_no_mark(l, "#$#"@, '#');
    lemma_no_mark(l, " #"@, '#');
}

/// What a rule is written for: `||d^` for a domain with its subdomains, `|d^` for one name,
/// and a bare `d` for a domain with its subdomains.
pub enum Mark {
    Domain,
    Name,
    Bare,
}

pub open spec fn marked(m: Mark, d: Seq<char>) -> Seq<char> {
    match m {
        Mark::Domain => "||"@ + d + "^"@,
        Mark::Name => "|"@ + d + "^"@,
        Mark::Bare => d,
    }
}

/// What makes a rule important.
pub open spec fn mark_end(important: bool) -> Seq<char> {
    if important {
        "$important"@
    } else {
        Seq::empty()
    }
}

/// The text of a rule, as it is written in lists.
pub open spec fn rule_text(excepted: bool, m: Mark, d: Seq<char>, important: bool) -> Seq<char> {
    (if excepted {
        "@@"@
    } else {
        Seq::empty()
    }) + marked(m, d) + mark_end(important)
}

/// How much a rule counts for that is written as an exception or as important, in a list of
/// exceptions or another one.
pub open spec fn kind_of(excepted: bool, important: bool, force_allow: bool) -> Kind {
    if excepted || force_allow {
        Kind::Allow
    } else if important {
        Kind::Important
    } else {
        Kind::Block
    }
}

spec fn rule_char(c: char) -> bool {
    domain_char(c) || c == '|' || c == '^' || c == '@' || c == '$'
}

proof fn lemma_marked(m: Mark, d: Seq<char>)
    requires
        plain_domain(d),
    ensures
        ({
            let k = marked(m, d);
            &&& k.len() > 0
            &&& k[0] == '|' || domain_char(k[0])
            &&& forall|i: int| 0 <= i < k.len() ==> (#[trigger] k[i] == '|' || k[i] == '^' || domain_char(k[i]))
            &&& lower(k) == k
            &&& stripped(k) == (d, m is Name)
        }),
{
    reveal_strlit("||");
    reveal_strlit("|");
    reveal_strlit("^");
    let k = marked(m, d);
    let n = d.len() as int;
    let from: int = match m {
        Mark::Domain => 2,
        Mark::Name => 1,
        Mark::Bare => 0,
    };
    assert forall|i: int| 0 <= i < k.len() implies (#[trigger] k[i] == '|' || k[i] == '^' || domain_char(k[i])) by {
        if from <= i < n + from {
            assert(domain_char(d[i - from]));
        }
    }
    assert(domain_char(d[0]));
    assert(domain_char(d[n - 1]));
    assert(lower(k) =~= k) by {
        assert forall|i: int| 0 <= i < k.len() implies lower(k)[i] == k[i] by {
            if from <= i < n + from {
                assert(lower(d)[i - from] == d[i - from]);
            }
        }
    }
    assert(trim_end_char(d, '^') == d);
    if m is Bare {
        assert(!starts_with(k, "||"@)) by {
            if starts_with(k, "||"@) {
                assert(k.subrange(0, 2)[0] == "||"@[0]);
            }
        }
        assert(!starts_with(k, "|"@)) by {
            if starts_with(k, "|"@) {
                assert(k.subrange(0, 1)[0] == "|"@[0]);
            }
        }
    } else {
        let t = k.subrange(from, k.len() as int);
        assert(t =~= d + "^"@);
        assert(t.last() == '^');
        assert(trim_end_char(t, '|') == t);
        assert(t.drop_last() =~= d);
        assert(trim_end_char(t, '^') == d);
        if m is Domain {
            assert(k.subrange(0, 2) =~= "||"@);
        } else {
            assert(k.subrange(0, 1) =~= "|"@);
            assert(!starts_with(k, "||"@)) by {
                if starts_with(k, "||"@) {
                    assert(k.subrange(0, 2)[1] == "||"@[1]);
                    assert(k[1] == d[0]);
                }
            }
        }
    }
}

proof fn lemma_rule_chars(excepted: bool, m: Mark, d: Seq<char>, important: bool)
    requires
        plain_domain(d),
    ensures
        ({
            let l = rule_text(excepted, m, d, important);
            &&& l.len() > 0
            &&& l[0] == '|' || l[0] == '@' || domain_char(l[0])
            &&& forall|i: int| 0 <= i < l.len() ==> rule_char(#[trigger] l[i])
            &&& trim(l) == l
        }),
{
    reveal_strlit("@@");
    reveal_strlit("$important");
    lemma_marked(m, d);
    let l = rule_text(excepted, m, d, important);
    let k = marked(m, d);
    let from: int = if excepted {
        2
    } else {
        0
    };
    assert forall|i: int| 0 <= i < l.len() implies rule_char(#[trigger] l[i]) by {
        if from <= i < from + k.len() {
            assert(l[i] == k[i - from]);
        }
    }
    assert(rule_char(l[0]));
    assert(rule_char(l.last()));
    if !excepted {
        assert(l[0] == k[0]);
    }
}

proof fn lemma_important()
    ensures
        all_important("important"@),
{
    reveal_strlit("important");
    let s = "important"@;
    lemma_find_char_none(s, ',');
    assert(split(s, ',') =~= seq![s]);
    assert(trim(s) == s);
}

proof fn lemma_rule_body(excepted: bool, m: Mark, d: Seq<char>, important: bool)
    requires
        plain_domain(d),
    ensures
        ({
            let l = rule_text(excepted, m, d, important);
            let body = marked(m, d) + mark_end(important);
            &&& starts_with(l, "@@"@) == excepted
            &&& excepted ==> l.subrange(2, l.len() as int) == body
            &&& !excepted ==> l == body
        }),
{
    reveal_strlit("@@");
    lemma_marked(m, d);
    let l = rule_text(excepted, m, d, important);
    let k = marked(m, d);
    let body = k + mark_end(important);
    if excepted {
        assert(l.subrange(0, 2) =~= "@@"@);
        assert(l.subrange(2, l.len() as int) =~= body);
    } else {
        assert(l =~= body);
        assert(l[0] == k[0]);
        if starts_with(l, "@@"@) {
            assert(l.subrange(0, 2)[0] == "@@"@[0]);
        }
    }
}

proof fn lemma_rule_end(k: Seq<char>, important: bool)
    requires
        forall|i: int| 0 <= i < k.len() ==> #[trigger] k[i] != '$',
    ensures
        split_once(k + mark_end(important), '$') == if important {
            Some((k, "important"@))
        } else {
            None
        },
{
    reveal_strlit("$important");
    reveal_strlit("important");
    let body = k + mark_end(important);
    if important {
        lemma_find_char_is(body, '$', k.len() as int);
        assert(body.subrange(0, k.len() as int) =~= k);
        assert(body.subrange(1int + k.len(), body.len() as int) =~= "important"@);
    } else {
        assert(body =~= k);
        lemma_find_char_none(body, '$');
    }
}

proof fn lemma_read_rule(excepted: bool, m: Mark, d: Seq<char>, important: bool, force_allow: bool)
    requires
        plain_domain(d),
    ensures
        read_rule(rule_text(excepted, m, d, important), force_allow) == (Line::Rule {
            kind: kind_of(excepted, important, force_allow),
            core: d,
            exact: m is Name,
            wild: false,
        }),
{
    let k = marked(m, d);
    lemma_rule_body(excepted, m, d, important);
    lemma_marked(m, d);
    assert(k[0] != '/');
    assert forall|i: int| 0 <= i < k.len() implies #[trigger] k[i] != '$' by {
        assert(k[i] == '|' || k[i] == '^' || domain_char(k[i]));
    }
    lemma_rule_end(k, important);
    lemma_important();
    assert(k + Seq::<char>::empty() =~= k);
    assert(!has_char(d, '*')) by {
        if has_char(d, '*') {
            let i = choose|i: int| 0 <= i < d.len() && #[trigger] d[i] == '*';
            assert(domain_char(d[i]));
        }
    }
}

proof fn lemma_rule_no_address(excepted: bool, m: Mark, d: Seq<char>, important: bool)
    requires
        plain_domain(d),
        m is Bare && !excepted && !important ==> read_ip(d) is None,
    ensures
        read_ip(rule_text(excepted, m, d, important)) is None,
{
    reveal_strlit("||");
    reveal_strlit("|");
    reveal_strlit("@@");
    reveal_strlit("$important");
    let l = rule_text(excepted, m, d, important);
    if m is Bare && !excepted && !important {
        assert(l =~= d);
    } else if read_ip(l) is Some {
        lemma_address_shaped(l);
        if excepted {
            assert(l[0] == '@');
        } else if !(m is Bare) {
            assert(l[0] == '|');
        } else {
            assert(l[d.len() as int] == '$');
        }
    }
}

/// The text of a rule is read as that rule, for its domain and for how much it counts. A
/// bare name is no rule where it is an address.
pub proof fn rule_texts_are_read(excepted: bool, m: Mark, d: Seq<char>, important: bool, force_allow: bool)
    requires
        plain_domain(d),
        m is Bare && !excepted && !important ==> read_ip(d) is None,
    ensures
        read_line(rule_text(excepted, m, d, important), force_allow) == (Line::Rule {
            kind: kind_of(excepted, important, force_allow),
            core: d,
            exact: m is Name,
            wild: false,
        }),
{
    lemma_rule_chars(excepted, m, d, important);
    let l = rule_text(excepted, m, d, important);
    assert forall|i: int| 0 <= i < l.len() implies #[trigger] l[i] != '#' by {
        assert(rule_char(l[i]));
    }
    lemma_no_comment(l);
    assert forall|i: int| 0 <= i < l.len() implies !is_white(#[trigger] l[i]) by {
        assert(rule_char(l[i]));
    }
    lemma_one_word(l);
    assert(words(l)[0] == l);
    lemma_rule_no_address(excepted, m, d, important);
    lemma_read_rule(excepted, m, d, important, force_allow);
}

// ── What rules match ─────────────────────────────────────────────────────────

/// Whether a name is a domain, or one below it.
pub open spec fn within(n: Seq<char>, d: Seq<char>) -> bool {
    n == d || (n.len() > d.len() && n[n.len() - d.len() - 1] == '.' && n.subrange(n.len() - d.len(), n.len() as int) == d)
}

impl KindRules {
    /// Whether a rule of this kind matches a name: one for that name, one for a domain that
    /// it is within, or a pattern.
    pub open spec fn matches(self, n: Seq<char>) -> bool {
        ||| self.exact.contains_key(n)
        ||| exists|d: Seq<char>| #[trigger] self.suffix.contains_key(d) && within(n, d)
        ||| exists|i: int| 0 <= i < self.wild.len() && wild_hits(#[trigger] self.wild[i], n)
    }
}

proof fn lemma_suffix_found(m: Map<Seq<char>, u16>, s: Seq<char>)
    ensures
        suffix_hit(m, s) matches Some(d) ==> m.contains_key(d) && within(s, d),
    decreases s.len(),
{
    lemma_find_char(s, '.');
    if !m.contains_key(s) {
        if let Some(i) = find_char(s, '.') {
            let t = s.subrange(i + 1, s.len() as int);
            lemma_suffix_found(m, t);
            if let Some(d) = suffix_hit(m, t) {
                assert(s.subrange(s.len() - d.len(), s.len() as int) =~= t.subrange(t.len() - d.len(), t.len() as int));
                if t != d {
                    assert(t[t.len() - d.len() - 1] == s[s.len() - d.len() - 1]);
                } else {
                    assert(s.subrange(s.len() - d.len(), s.len() as int) =~= d);
                }
            }
        }
    }
}

proof fn lemma_first_wild(w: Seq<(Seq<char>, bool, u16)>, n: Seq<char>)
    ensures
        (first_wild(w, n) is Some) == exists|i: int| 0 <= i < w.len() && wild_hits(#[trigger] w[i], n),
    decreases w.len(),
{
    if w.len() > 0 && !wild_hits(w[0], n) {
        let t = w.drop_first();
        lemma_first_wild(t, n);
        if first_wild(w, n) is Some {
            let i = choose|i: int| 0 <= i < t.len() && wild_hits(#[trigger] t[i], n);
            assert(wild_hits(w[i + 1], n));
        }
        if exists|i: int| 0 <= i < w.len() && wild_hits(#[trigger] w[i], n) {
            let i = choose|i: int| 0 <= i < w.len() && wild_hits(#[trigger] w[i], n);
            assert(wild_hits(t[i - 1], n));
        }
    }
}

/// A name falls under a rule of a kind exactly where one of its rules matches it.
pub proof fn names_fall_under_what_matches(k: KindRules, n: Seq<char>)
    ensures
        (k.find(n) is Some) == k.matches(n),
{
    lemma_suffix_found(k.suffix, n);
    lemma_first_wild(k.wild, n);
    if exists|d: Seq<char>| #[trigger] k.suffix.contains_key(d) && within(n, d) {
        let d = choose|d: Seq<char>| #[trigger] k.suffix.contains_key(d) && within(n, d);
        if n != d {
            let x = n.subrange(0, n.len() - d.len() - 1);
            assert(n =~= x + seq!['.'] + d);
            lemma_suffix_hit(k.suffix, x, d);
        }
    }
}

/// The verdict on a name: blocked where an important rule matches it; else allowed where an
/// exception does; else blocked where a block rule does.
pub proof fn verdicts_follow_the_kinds(r: Rules, name: Seq<char>)
    ensures
        ({
            let n = plain_name(name);
            let (important, allow, block) = (r.important.matches(n), r.allow.matches(n), r.block.matches(n));
            &&& (r.rule_on(name) is Blocked) == (important || (!allow && block))
            &&& (r.rule_on(name) is Allowed) == (!important && allow)
            &&& (r.rule_on(name) is Unlisted) == (!important && !allow && !block)
        }),
{
    let n = plain_name(name);
    names_fall_under_what_matches(r.important, n);
    names_fall_under_what_matches(r.allow, n);
    names_fall_under_what_matches(r.block, n);
}

/// What a rule for a name, or for a domain, adds to the names that its kind matches.
pub proof fn rules_match_what_they_are_for(k: KindRules, d: Seq<char>, exact: bool, source: u16, n: Seq<char>)
    ensures
        k.with(d, exact, false, source).matches(n) == (k.matches(n) || if exact {
            n == d
        } else {
            within(n, d)
        }),
{
    let after = k.with(d, exact, false, source);
    if exact {
        assert(after.suffix == k.suffix && after.wild == k.wild);
    } else {
        assert(after.exact == k.exact && after.wild == k.wild);
        assert(after.suffix.contains_key(d));
        if exists|e: Seq<char>| #[trigger] k.suffix.contains_key(e) && within(n, e) {
            let e = choose|e: Seq<char>| #[trigger] k.suffix.contains_key(e) && within(n, e);
            assert(after.suffix.contains_key(e) && within(n, e));
        }
        if exists|e: Seq<char>| #[trigger] after.suffix.contains_key(e) && within(n, e) {
            let e = choose|e: Seq<char>| #[trigger] after.suffix.contains_key(e) && within(n, e);
            if e != d {
                assert(k.suffix.contains_key(e) && within(n, e));
            }
        }
    }
}

proof fn lemma_one_line(r: Rules, list: Seq<char>, text: Seq<char>, force_allow: bool)
    requires
        text.len() > 0,
        trim(text) == text,
        forall|i: int| 0 <= i < text.len() ==> #[trigger] text[i] != '\n',
    ensures
        ({
            let after = r.with_source(list, text, force_allow);
            let line = r.with_line(read_line(text, force_allow), (r.sources.len() % 65536) as u16, force_allow);
            &&& after.block == line.block
            &&& after.allow == line.allow
            &&& after.important == line.important
            &&& after.hosts == line.hosts
        }),
{
    lemma_find_char_none(text, '\n');
    let all = lines(text);
    assert(all =~= seq![text]);
    let source = (r.sources.len() % 65536) as u16;
    assert(all.drop_last() =~= Seq::<Seq<char>>::empty());
    assert(r.with_lines(Seq::<Seq<char>>::empty(), source, force_allow) == r);
    assert(all.last() == text);
}

/// A list with the text of a rule: of the kind of the rule, it matches `d` and every name
/// below it where the text is `||d^` or a bare `d`, and `d` alone where it is `|d^`, besides
/// what was matched before. The other kinds stay as they are.
pub proof fn listed_rules_match(
    r: Rules,
    list: Seq<char>,
    excepted: bool,
    m: Mark,
    d: Seq<char>,
    important: bool,
    force_allow: bool,
    n: Seq<char>,
)
    requires
        plain_domain(d),
        m is Bare && !excepted && !important ==> read_ip(d) is None,
    ensures
        ({
            let after = r.with_source(list, rule_text(excepted, m, d, important), force_allow);
            let kind = kind_of(excepted, important, force_allow);
            &&& after.of(kind).matches(n) == (r.of(kind).matches(n) || if m is Name {
                n == d
            } else {
                within(n, d)
            })
            &&& forall|other: Kind| other != kind ==> #[trigger] after.of(other) == r.of(other)
            &&& after.hosts == r.hosts
        }),
{
    let text = rule_text(excepted, m, d, important);
    let kind = kind_of(excepted, important, force_allow);
    rule_texts_are_read(excepted, m, d, important, force_allow);
    lemma_rule_chars(excepted, m, d, important);
    assert forall|i: int| 0 <= i < text.len() implies #[trigger] text[i] != '\n' by {
        assert(rule_char(text[i]));
    }
    lemma_one_line(r, list, text, force_allow);
    let source = (r.sources.len() % 65536) as u16;
    rules_match_what_they_are_for(r.of(kind), d, m is Name, source, n);
}

/// Names with white space before each.
pub open spec fn spaced(names: Seq<Seq<char>>) -> Seq<char>
    decreases names.len(),
{
    if names.len() == 0 {
        Seq::empty()
    } else {
        seq![' '] + names[0] + spaced(names.drop_first())
    }
}

/// A line of a hosts file.
pub open spec fn hosts_text(address: Seq<char>, names: Seq<Seq<char>>) -> Seq<char> {
    address + spaced(names)
}

/// Domains in lower case, none of which every hosts file has.
pub open spec fn host_list(names: Seq<Seq<char>>) -> bool {
    forall|i: int| 0 <= i < names.len() ==> plain_domain(#[trigger] names[i]) && !hosts_own(names[i])
}

proof fn lemma_spaced(names: Seq<Seq<char>>)
    requires
        host_list(names),
    ensures
        words(spaced(names)) == names,
        spaced(names).len() == 0 || spaced(names)[0] == ' ',
        names.len() > 0 ==> spaced(names).len() > 1 && domain_char(spaced(names).last()),
        forall|i: int| 0 <= i < spaced(names).len() ==> (#[trigger] spaced(names)[i] == ' ' || domain_char(spaced(names)[i])),
    decreases names.len(),
{
    if names.len() == 0 {
        assert(words(Seq::<char>::empty()) =~= names);
    } else {
        let rest = names.drop_first();
        assert(plain_domain(names[0]));
        assert forall|i: int| 0 <= i < rest.len() implies plain_domain(#[trigger] rest[i]) && !hosts_own(rest[i]) by {
            assert(rest[i] == names[i + 1]);
        }
        lemma_spaced(rest);
        let n = names[0];
        let t = spaced(rest);
        let s = spaced(names);
        assert(s =~= seq![' '] + (n + t));
        lemma_space_before(n + t);
        assert forall|i: int| 0 <= i < n.len() implies !is_white(#[trigger] n[i]) by {
            assert(domain_char(n[i]));
        }
        lemma_first_word(n, t);
        assert(seq![n] + rest =~= names);
        assert forall|i: int| 0 <= i < s.len() implies (#[trigger] s[i] == ' ' || domain_char(s[i])) by {
            if 1 <= i <= n.len() {
                assert(s[i] == n[i - 1]);
                assert(domain_char(n[i - 1]));
            } else if i > n.len() {
                assert(s[i] == t[i - n.len() - 1]);
            }
        }
        if t.len() > 0 {
            assert(s.last() == t.last());
        } else {
            assert(s.last() == n[n.len() - 1]);
            assert(domain_char(n[n.len() - 1]));
        }
    }
}

proof fn lemma_host_names(names: Seq<Seq<char>>)
    requires
        host_list(names),
    ensures
        host_names(names) == names,
    decreases names.len(),
{
    if names.len() > 0 {
        let d = names.drop_last();
        assert forall|i: int| 0 <= i < d.len() implies plain_domain(#[trigger] d[i]) && !hosts_own(d[i]) by {
            assert(d[i] == names[i]);
        }
        lemma_host_names(d);
        assert(plain_domain(names[names.len() - 1]));
        assert(d.push(names.last()) =~= names);
    } else {
        assert(host_names(names) =~= names);
    }
}

proof fn lemma_hosts_chars(address: Seq<char>, names: Seq<Seq<char>>)
    requires
        read_ip(address) is Some,
        host_list(names),
        names.len() > 0,
    ensures
        ({
            let l = hosts_text(address, names);
            &&& l.len() > 0
            &&& is_hex(l[0]) || l[0] == '.' || l[0] == ':'
            &&& forall|i: int| 0 <= i < l.len() ==> (#[trigger] l[i] == ' ' || l[i] == ':' || domain_char(l[i]))
            &&& trim(l) == l
        }),
{
    lemma_address_shaped(address);
    lemma_spaced(names);
    let l = hosts_text(address, names);
    assert(l[0] == address[0]);
    assert(l.last() == spaced(names).last());
    assert forall|i: int| 0 <= i < l.len() implies (#[trigger] l[i] == ' ' || l[i] == ':' || domain_char(l[i])) by {
        if i < address.len() {
            assert(l[i] == address[i]);
        } else {
            assert(l[i] == spaced(names)[i - address.len()]);
        }
    }
}

/// A line of a hosts file is read as its address and its names.
pub proof fn hosts_lines_are_read(address: Seq<char>, names: Seq<Seq<char>>, force_allow: bool)
    requires
        read_ip(address) is Some,
        host_list(names),
        names.len() > 0,
    ensures
        read_line(hosts_text(address, names), force_allow) == (Line::Hosts { ip: read_ip(address)->Some_0, names }),
{
    let l = hosts_text(address, names);
    lemma_address_shaped(address);
    lemma_spaced(names);
    lemma_hosts_chars(address, names);
    lemma_host_names(names);
    assert forall|i: int| 0 <= i < l.len() implies #[trigger] l[i] != '#' by {
        assert(l[i] == ' ' || l[i] == ':' || domain_char(l[i]));
    }
    lemma_no_comment(l);
    assert forall|i: int| 0 <= i < address.len() implies !is_white(#[trigger] address[i]) by {}
    lemma_first_word(address, spaced(names));
    let w = words(l);
    assert(w[0] == address);
    assert(w.drop_first() =~= names);
}

proof fn lemma_hosts_block(r: Rules, names: Seq<Seq<char>>, ip: IpAddr, source: u16, n: Seq<char>)
    requires
        host_list(names),
        black_hole(ip),
    ensures
        ({
            let after = r.with_hosts(names, ip, source, false);
            &&& after.block.matches(n) == (r.block.matches(n) || names.contains(n))
            &&& after.allow == r.allow
            &&& after.important == r.important
            &&& after.hosts == r.hosts
        }),
    decreases names.len(),
{
    if names.len() > 0 {
        let d = names.drop_last();
        let last = names.last();
        assert forall|i: int| 0 <= i < d.len() implies plain_domain(#[trigger] d[i]) && !hosts_own(d[i]) by {
            assert(d[i] == names[i]);
        }
        lemma_hosts_block(r, d, ip, source, n);
        assert(plain_domain(names[names.len() - 1]));
        let before = r.with_hosts(d, ip, source, false);
        rules_match_what_they_are_for(before.block, last, true, source, n);
        if d.contains(n) {
            let i = choose|i: int| 0 <= i < d.len() && d[i] == n;
            assert(names[i] == n);
        }
        if names.contains(n) && n != last {
            let i = choose|i: int| 0 <= i < names.len() && names[i] == n;
            assert(d[i] == n);
        }
        if n == last {
            assert(names[names.len() - 1] == n);
        }
    }
}

/// A list with a line of a hosts file that has no real address: it blocks the names of the
/// line and, besides what was blocked before, no other name.
pub proof fn listed_hosts_match(r: Rules, list: Seq<char>, address: Seq<char>, names: Seq<Seq<char>>, n: Seq<char>)
    requires
        read_ip(address) matches Some(ip) && black_hole(ip),
        host_list(names),
        names.len() > 0,
    ensures
        ({
            let after = r.with_source(list, hosts_text(address, names), false);
            &&& after.block.matches(n) == (r.block.matches(n) || names.contains(n))
            &&& after.allow == r.allow
            &&& after.important == r.important
            &&& after.hosts == r.hosts
        }),
{
    let text = hosts_text(address, names);
    hosts_lines_are_read(address, names, false);
    lemma_hosts_chars(address, names);
    assert forall|i: int| 0 <= i < text.len() implies #[trigger] text[i] != '\n' by {
        assert(text[i] == ' ' || text[i] == ':' || domain_char(text[i]));
    }
    lemma_one_line(r, list, text, false);
    lemma_hosts_block(r, names, read_ip(address)->Some_0, (r.sources.len() % 65536) as u16, n);
}

proof fn lemma_unhostable(r: Rules, names: Seq<Seq<char>>, ip: IpAddr, source: u16, force_allow: bool)
    requires
        !any_hostable(names),
    ensures
        r.with_hosts(names, ip, source, force_allow) == r,
    decreases names.len(),
{
    if names.len() > 0 {
        let d = names.drop_last();
        assert forall|i: int| 0 <= i < d.len() implies !hostable(#[trigger] d[i]) by {
            assert(d[i] == names[i]);
        }
        assert(!hostable(names[names.len() - 1]));
        lemma_unhostable(r, d, ip, source, force_allow);
    }
}

/// A line that does not count as applied leaves the rules as they are.
pub proof fn unapplied_lines_change_nothing(r: Rules, l: Line, source: u16, force_allow: bool)
    requires
        !applies(l),
    ensures
        r.with_line(l, source, force_allow) == r,
{
    if let Line::Hosts { ip, names } = l {
        lemma_unhostable(r, names, ip, source, force_allow);
    }
}

proof fn lemma_hosts_allowed(r: Rules, names: Seq<Seq<char>>, ip: IpAddr, source: u16, n: Seq<char>)
    requires
        hostable(n),
    ensures
        r.allow.exact.contains_key(n) || names.contains(n) ==> r.with_hosts(
            names,
            ip,
            source,
            true,
        ).allow.exact.contains_key(n),
    decreases names.len(),
{
    if names.len() > 0 {
        let d = names.drop_last();
        lemma_hosts_allowed(r, d, ip, source, n);
        if names.contains(n) && !d.contains(n) {
            let i = choose|i: int| 0 <= i < names.len() && names[i] == n;
            if i < d.len() {
                assert(d[i] == n);
            }
            assert(names.last() == n);
        }
    }
}

/// Every name of a hosts line in a list of exceptions is an exception, whatever its
/// address: only an important rule blocks it.
pub proof fn allowed_hosts_are_not_blocked(
    r: Rules,
    ip: IpAddr,
    names: Seq<Seq<char>>,
    source: u16,
    n: Seq<char>,
    name: Seq<char>,
)
    requires
        names.contains(n),
        hostable(n),
        plain_name(name) == n,
        r.important.find(n) is None,
    ensures
        r.with_line(Line::Hosts { ip, names }, source, true).rule_on(name) is Allowed,
{
    lemma_hosts_allowed(r, names, ip, source, n);
    lemma_allow_hosts(r, names, ip, source);
}

/// A list of exceptions blocks nothing.
pub proof fn allow_lists_block_nothing(r: Rules, list: Seq<char>, text: Seq<char>)
    ensures
        r.with_source(list, text, true).block == r.block,
        r.with_source(list, text, true).important == r.important,
{
    lemma_allow_lines(r, lines(text), (r.sources.len() % 65536) as u16);
}

proof fn lemma_allow_lines(r: Rules, all: Seq<Seq<char>>, source: u16)
    ensures
        r.with_lines(all, source, true).block == r.block,
        r.with_lines(all, source, true).important == r.important,
    decreases all.len(),
{
    if all.len() > 0 {
        lemma_allow_lines(r, all.drop_last(), source);
        let before = r.with_lines(all.drop_last(), source, true);
        if let Line::Hosts { ip, names } = read_line(trim(all.last()), true) {
            lemma_allow_hosts(before, names, ip, source);
        }
    }
}

proof fn lemma_allow_hosts(r: Rules, names: Seq<Seq<char>>, ip: IpAddr, source: u16)
    ensures
        r.with_hosts(names, ip, source, true).block == r.block,
        r.with_hosts(names, ip, source, true).important == r.important,
    decreases names.len(),
{
    if names.len() > 0 {
        lemma_allow_hosts(r, names.drop_last(), ip, source);
    }
}

/// The rules of all sources are those of each together.
pub proof fn rules_are_counted_over_all_sources(sources: Seq<Source>, s: Source)
    ensures
        total_rules(sources.push(s)) == total_rules(sources) + s.rules,
        total_rules(Seq::empty()) == 0,
{
    assert(sources.push(s).drop_last() =~= sources);
}

/// A line that begins with one of the marks of a comment means nothing, nor does an empty one.
pub proof fn comments_mean_nothing(line: Seq<char>, force_allow: bool)
    ensures
        line.len() == 0 ==> read_line(line, force_allow) == Line::Nothing,
        line.len() > 0 && (line[0] == '!' || line[0] == '#' || line[0] == '[') ==> read_line(line, force_allow)
            == Line::Nothing,
{
}

/// A name of a hosts file that has an address of its own is answered with it, and one whose
/// address leads nowhere is blocked; in a list of exceptions it is allowed.
pub proof fn hosts_are_answered_or_blocked(r: Rules, n: Seq<char>, ip: IpAddr, source: u16)
    requires
        hostable(n),
    ensures
        ip == IpAddr::V4(0) || ip == IpAddr::V6(0) || ip == IpAddr::V6(1) ==> r.with_host(n, ip, source, false).block.matches(n)
            && r.with_host(n, ip, source, false).hosts == r.hosts,
        (ip matches IpAddr::V4(v) && v / 0x100_0000 == 127) ==> r.with_host(n, ip, source, false).block.matches(n),
        (ip matches IpAddr::V4(v) && v != 0 && v / 0x100_0000 != 127) ==> r.with_host(n, ip, source, false).hosts.contains_key(n)
            && r.with_host(n, ip, source, false).hosts[n].last() == ip && r.with_host(n, ip, source, false).block == r.block,
        r.with_host(n, ip, source, true).allow.matches(n),
        r.with_host(n, ip, source, true).block == r.block,
{
}

} // verus!
