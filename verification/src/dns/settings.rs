//! The settings of the resolver.

use vstd::prelude::*;

use crate::dns::services::{is_service, known_service};
use crate::dns::upstream::{read_upstream, Upstream, UpstreamError};
use crate::text::{chars_of, owned, same_str, string_views, trim, trimmed};

verus! {

/// How a blocked name is answered.
#[derive(Debug, Clone, Copy, PartialEq, Eq, Structural)]
pub enum BlockingMode {
    /// The name does not exist.
    Nxdomain,
    /// An address that leads nowhere.
    NullIp,
    Refused,
}

#[derive(Debug, Clone, Copy, PartialEq, Eq, Structural)]
pub enum UpstreamMode {
    /// One after the other, the next one where a query fails.
    Fallback,
    /// All at once; the first answer wins.
    Parallel,
}

#[derive(Debug, Clone)]
pub struct FilterList {
    pub name: String,
    pub url: String,
    pub enabled: bool,
}

#[derive(Debug, Clone)]
pub struct Rewrite {
    /// A name, or `*.example.org` for every name below it.
    pub domain: String,
    /// An address, or a name.
    pub answer: String,
}

/// Lists that can be turned on by an id: id, name and address.
pub const PRESET_LISTS: [(&'static str, &'static str, &'static str); 5] = [
    ("adguard", "AdGuard DNS filter", "https://adguardteam.github.io/AdGuardSDNSFilter/Filters/filter.txt"),
    ("adaway", "AdAway default blocklist", "https://adaway.org/hosts.txt"),
    (
        "stevenblack",
        "Steven Black's unified hosts",
        "https://raw.githubusercontent.com/StevenBlack/hosts/master/hosts",
    ),
    ("oisd-small", "OISD small", "https://small.oisd.nl/"),
    (
        "hagezi-light",
        "HaGeZi Light",
        "https://raw.githubusercontent.com/hagezi/dns-blocklists/main/adblock/light.txt",
    ),
];

#[derive(Debug)]
pub struct DnsSettings {
    pub enabled: bool,
    /// While the filter is off, queries are still answered, so that they do not
    /// leave from the server's address.
    pub intercept_all_port53: bool,
    pub upstreams: Vec<String>,
    pub upstream_mode: UpstreamMode,
    /// Answers that are kept; none where this is zero.
    pub cache_size: usize,
    pub cache_min_ttl: u32,
    pub cache_max_ttl: u32,
    pub blocking_mode: BlockingMode,
    pub blocked_ttl: u32,
    pub lists: Vec<FilterList>,
    /// Lists of names that are never blocked.
    pub allowlists: Vec<FilterList>,
    /// How often lists are fetched again.
    pub update_interval_hours: u32,
    pub user_rules: Vec<String>,
    pub rewrites: Vec<Rewrite>,
    pub safe_search: bool,
    /// Keeps browsers from going round the resolver.
    pub block_doh_bypass: bool,
    /// Ids of services.
    pub blocked_services: Vec<String>,
    /// Queries that are kept for the panel.
    pub query_log_size: usize,
    /// Fields of older settings, which [`DnsSettings::normalized`] folds into the
    /// ones above.
    pub doh_upstream: Option<String>,
    pub adblock_urls: Option<Vec<String>>,
    pub custom_domains: Option<Vec<(String, String)>>,
    pub local_port: Option<u16>,
}

pub open spec fn list_view(l: FilterList) -> (Seq<char>, Seq<char>, bool) {
    (l.name@, l.url@, l.enabled)
}

pub open spec fn list_views(v: Seq<FilterList>) -> Seq<(Seq<char>, Seq<char>, bool)> {
    Seq::new(v.len(), |i: int| list_view(v[i]))
}

pub open spec fn rewrite_views(v: Seq<Rewrite>) -> Seq<(Seq<char>, Seq<char>)> {
    Seq::new(v.len(), |i: int| (v[i].domain@, v[i].answer@))
}

pub open spec fn pair_views(v: Seq<(String, String)>) -> Seq<(Seq<char>, Seq<char>)> {
    Seq::new(v.len(), |i: int| (v[i].0@, v[i].1@))
}

impl DnsSettings {
    /// The settings where nothing is said.
    pub open spec fn is_default(&self) -> bool {
        &&& !self.enabled
        &&& !self.intercept_all_port53
        &&& string_views(self.upstreams@) == seq![
            "https://cloudflare-dns.com/dns-query"@,
            "https://dns.google/dns-query"@,
        ]
        &&& self.upstream_mode == UpstreamMode::Fallback
        &&& self.cache_size == 10_000
        &&& self.cache_min_ttl == 60
        &&& self.cache_max_ttl == 86_400
        &&& self.blocking_mode == BlockingMode::Nxdomain
        &&& self.blocked_ttl == 300
        &&& list_views(self.lists@) == seq![(PRESET_LISTS@[0].1@, PRESET_LISTS@[0].2@, true)]
        &&& self.allowlists@.len() == 0
        &&& self.update_interval_hours == 24
        &&& self.user_rules@.len() == 0
        &&& self.rewrites@.len() == 0
        &&& !self.safe_search
        &&& self.block_doh_bypass
        &&& self.blocked_services@.len() == 0
        &&& self.query_log_size == 1000
        &&& self.doh_upstream is None
        &&& self.adblock_urls is None
        &&& self.custom_domains is None
        &&& self.local_port is None
    }
}

impl Default for DnsSettings {
    fn default() -> (r: Self)
        ensures
            r.is_default(),
    {
        let mut upstreams: Vec<String> = Vec::new();
        upstreams.push(owned("https://cloudflare-dns.com/dns-query"));
        upstreams.push(owned("https://dns.google/dns-query"));
        let presets = PRESET_LISTS;
        let mut lists: Vec<FilterList> = Vec::new();
        lists.push(FilterList { name: owned(presets[0].1), url: owned(presets[0].2), enabled: true });
        let r = DnsSettings {
            enabled: false,
            intercept_all_port53: false,
            upstreams,
            upstream_mode: UpstreamMode::Fallback,
            cache_size: 10_000,
            cache_min_ttl: 60,
            cache_max_ttl: 86_400,
            blocking_mode: BlockingMode::Nxdomain,
            blocked_ttl: 300,
            lists,
            allowlists: Vec::new(),
            update_interval_hours: 24,
            user_rules: Vec::new(),
            rewrites: Vec::new(),
            safe_search: false,
            block_doh_bypass: true,
            blocked_services: Vec::new(),
            query_log_size: 1000,
            doh_upstream: None,
            adblock_urls: None,
            custom_domains: None,
            local_port: None,
        };
        assert(string_views(r.upstreams@) =~= seq![
            "https://cloudflare-dns.com/dns-query"@,
            "https://dns.google/dns-query"@,
        ]);
        assert(list_views(r.lists@) =~= seq![(PRESET_LISTS@[0].1@, PRESET_LISTS@[0].2@, true)]);
        r
    }
}

// ── Older settings ───────────────────────────────────────────────────────────

/// An older upstream comes first, where it is not there yet.
pub open spec fn folded_upstreams(upstreams: Seq<Seq<char>>, doh: Option<Seq<char>>) -> Seq<Seq<char>> {
    match doh {
        Some(u) => if u.len() > 0 && !upstreams.contains(u) {
            seq![u] + upstreams
        } else {
            upstreams
        },
        None => upstreams,
    }
}

/// Whether a list of an address is there.
pub open spec fn has_url(lists: Seq<(Seq<char>, Seq<char>, bool)>, url: Seq<char>) -> bool {
    exists|i: int| 0 <= i < lists.len() && (#[trigger] lists[i]).1 == url
}

/// Older addresses of lists come last, named by their address, where they are not
/// there yet.
pub open spec fn folded_lists(lists: Seq<(Seq<char>, Seq<char>, bool)>, urls: Seq<Seq<char>>) -> Seq<
    (Seq<char>, Seq<char>, bool),
>
    decreases urls.len(),
{
    if urls.len() == 0 {
        lists
    } else {
        let l = folded_lists(lists, urls.drop_last());
        if has_url(l, urls.last()) {
            l
        } else {
            l.push((urls.last(), urls.last(), true))
        }
    }
}

/// Whether a name is rewritten.
pub open spec fn has_domain(rewrites: Seq<(Seq<char>, Seq<char>)>, domain: Seq<char>) -> bool {
    exists|i: int| 0 <= i < rewrites.len() && (#[trigger] rewrites[i]).0 == domain
}

/// Older rewrites come last, where the name is not rewritten yet.
pub open spec fn folded_rewrites(rewrites: Seq<(Seq<char>, Seq<char>)>, older: Seq<(Seq<char>, Seq<char>)>) -> Seq<
    (Seq<char>, Seq<char>),
>
    decreases older.len(),
{
    if older.len() == 0 {
        rewrites
    } else {
        let r = folded_rewrites(rewrites, older.drop_last());
        if has_domain(r, older.last().0) {
            r
        } else {
            r.push(older.last())
        }
    }
}

pub open spec fn opt_view(s: Option<String>) -> Option<Seq<char>> {
    match s {
        Some(t) => Some(t@),
        None => None,
    }
}

pub open spec fn opt_list(s: Option<Vec<String>>) -> Seq<Seq<char>> {
    match s {
        Some(v) => string_views(v@),
        None => Seq::empty(),
    }
}

pub open spec fn opt_pairs(s: Option<Vec<(String, String)>>) -> Seq<(Seq<char>, Seq<char>)> {
    match s {
        Some(v) => pair_views(v@),
        None => Seq::empty(),
    }
}

fn holds_text(list: &Vec<String>, s: &str) -> (r: bool)
    ensures
        r == string_views(list@).contains(s@),
{
    let mut i: usize = 0;
    while i < list.len()
        invariant
            i <= list@.len(),
            forall|k: int| 0 <= k < i ==> #[trigger] string_views(list@)[k] != s@,
        decreases list@.len() - i,
    {
        if same_str(&list[i], s) {
            assert(string_views(list@)[i as int] == s@);
            return true;
        }
        i += 1;
    }
    false
}

fn has_list(list: &Vec<FilterList>, url: &str) -> (r: bool)
    ensures
        r == has_url(list_views(list@), url@),
{
    let mut i: usize = 0;
    while i < list.len()
        invariant
            i <= list@.len(),
            forall|k: int| 0 <= k < i ==> (#[trigger] list_views(list@)[k]).1 != url@,
        decreases list@.len() - i,
    {
        if same_str(&list[i].url, url) {
            assert(list_views(list@)[i as int].1 == url@);
            return true;
        }
        i += 1;
    }
    false
}

fn has_rewrite(list: &Vec<Rewrite>, domain: &str) -> (r: bool)
    ensures
        r == has_domain(rewrite_views(list@), domain@),
{
    let mut i: usize = 0;
    while i < list.len()
        invariant
            i <= list@.len(),
            forall|k: int| 0 <= k < i ==> (#[trigger] rewrite_views(list@)[k]).0 != domain@,
        decreases list@.len() - i,
    {
        if same_str(&list[i].domain, domain) {
            assert(rewrite_views(list@)[i as int].0 == domain@);
            return true;
        }
        i += 1;
    }
    false
}

fn fold_lists(lists: &mut Vec<FilterList>, urls: &Vec<String>)
    ensures
        list_views(final(lists)@) == folded_lists(list_views(old(lists)@), string_views(urls@)),
{
    let ghost all = string_views(urls@);
    let ghost start = list_views(lists@);
    let mut i: usize = 0;
    assert(all.subrange(0, 0) =~= Seq::<Seq<char>>::empty());
    while i < urls.len()
        invariant
            all == string_views(urls@),
            i <= urls@.len(),
            list_views(lists@) == folded_lists(start, all.subrange(0, i as int)),
        decreases urls@.len() - i,
    {
        let ghost u = all.subrange(0, i + 1);
        assert(u.drop_last() =~= all.subrange(0, i as int));
        assert(u.last() == urls@[i as int]@);
        if !has_list(lists, &urls[i]) {
            let ghost before = lists@;
            lists.push(FilterList { name: owned(&urls[i]), url: owned(&urls[i]), enabled: true });
            assert(list_views(lists@) =~= list_views(before).push((u.last(), u.last(), true)));
        }
        i += 1;
    }
    assert(all.subrange(0, i as int) =~= all);
}

fn fold_rewrites(rewrites: &mut Vec<Rewrite>, older: &Vec<(String, String)>)
    ensures
        rewrite_views(final(rewrites)@) == folded_rewrites(rewrite_views(old(rewrites)@), pair_views(older@)),
{
    let ghost all = pair_views(older@);
    let ghost start = rewrite_views(rewrites@);
    let mut i: usize = 0;
    assert(all.subrange(0, 0) =~= Seq::<(Seq<char>, Seq<char>)>::empty());
    while i < older.len()
        invariant
            all == pair_views(older@),
            i <= older@.len(),
            rewrite_views(rewrites@) == folded_rewrites(start, all.subrange(0, i as int)),
        decreases older@.len() - i,
    {
        let ghost u = all.subrange(0, i + 1);
        assert(u.drop_last() =~= all.subrange(0, i as int));
        assert(u.last() == (older@[i as int].0@, older@[i as int].1@));
        if !has_rewrite(rewrites, &older[i].0) {
            let ghost before = rewrites@;
            rewrites.push(Rewrite { domain: owned(&older[i].0), answer: owned(&older[i].1) });
            assert(rewrite_views(rewrites@) =~= rewrite_views(before).push(u.last()));
        }
        i += 1;
    }
    assert(all.subrange(0, i as int) =~= all);
}

/// Why settings cannot be used.
#[derive(Debug)]
pub enum SettingsError {
    /// The filter is on, and there is no upstream.
    NoUpstreams,
    /// An upstream cannot be read.
    Upstream(UpstreamError),
    /// A rewrite without a name or without an answer.
    IncompleteRewrite,
    /// A service that there is not.
    UnknownService(String),
    /// The shortest time is longer than the longest.
    TtlRange,
}

/// Why settings cannot be used.
pub enum Flaw {
    NoUpstreams,
    Upstream(UpstreamError),
    IncompleteRewrite,
    UnknownService(Seq<char>),
    TtlRange,
}

impl View for SettingsError {
    type V = Flaw;

    open spec fn view(&self) -> Flaw {
        match *self {
            SettingsError::NoUpstreams => Flaw::NoUpstreams,
            SettingsError::Upstream(e) => Flaw::Upstream(e),
            SettingsError::IncompleteRewrite => Flaw::IncompleteRewrite,
            SettingsError::UnknownService(s) => Flaw::UnknownService(s@),
            SettingsError::TtlRange => Flaw::TtlRange,
        }
    }
}

/// The error of the first upstream that cannot be read.
pub open spec fn upstream_flaw(specs: Seq<Seq<char>>) -> Option<UpstreamError>
    decreases specs.len(),
{
    if specs.len() == 0 {
        None
    } else {
        match read_upstream(specs[0]) {
            Err(e) => Some(e),
            Ok(_) => upstream_flaw(specs.drop_first()),
        }
    }
}

pub open spec fn incomplete(r: (Seq<char>, Seq<char>)) -> bool {
    trim(r.0).len() == 0 || trim(r.1).len() == 0
}

pub open spec fn some_incomplete(all: Seq<(Seq<char>, Seq<char>)>) -> bool {
    exists|i: int| 0 <= i < all.len() && incomplete(#[trigger] all[i])
}

/// The first service that there is not.
pub open spec fn unknown_service(ids: Seq<Seq<char>>) -> Option<Seq<char>>
    decreases ids.len(),
{
    if ids.len() == 0 {
        None
    } else if !known_service(ids[0]) {
        Some(ids[0])
    } else {
        unknown_service(ids.drop_first())
    }
}

impl DnsSettings {
    /// What is wrong with the settings, if anything is.
    pub open spec fn flaw(&self) -> Option<Flaw> {
        if self.enabled && self.upstreams@.len() == 0 {
            Some(Flaw::NoUpstreams)
        } else {
            match upstream_flaw(string_views(self.upstreams@)) {
                Some(e) => Some(Flaw::Upstream(e)),
                None => if some_incomplete(rewrite_views(self.rewrites@)) {
                    Some(Flaw::IncompleteRewrite)
                } else {
                    match unknown_service(string_views(self.blocked_services@)) {
                        Some(s) => Some(Flaw::UnknownService(s)),
                        None => if self.cache_min_ttl > self.cache_max_ttl {
                            Some(Flaw::TtlRange)
                        } else {
                            None
                        },
                    }
                },
            }
        }
    }

    /// These are other settings, with the fields of older settings folded into the
    /// others.
    pub open spec fn is_normal_of(self, s: DnsSettings) -> bool {
        &&& string_views(self.upstreams@) == folded_upstreams(string_views(s.upstreams@), opt_view(s.doh_upstream))
        &&& list_views(self.lists@) == folded_lists(list_views(s.lists@), opt_list(s.adblock_urls))
        &&& rewrite_views(self.rewrites@) == folded_rewrites(rewrite_views(s.rewrites@), opt_pairs(s.custom_domains))
        &&& self == (DnsSettings {
            upstreams: self.upstreams,
            lists: self.lists,
            rewrites: self.rewrites,
            doh_upstream: None,
            adblock_urls: None,
            custom_domains: None,
            local_port: None,
            ..s
        })
    }

    /// The settings with the fields of older settings folded into the others.
    pub fn normalized(self) -> (r: Self)
        ensures
            r.is_normal_of(self),
    {
        let mut s = self;
        if let Some(u) = s.doh_upstream.take() {
            if chars_of(&u).len() > 0 && !holds_text(&s.upstreams, &u) {
                let ghost before = s.upstreams@;
                let ghost t = u@;
                s.upstreams.insert(0, u);
                assert(string_views(s.upstreams@) =~= seq![t] + string_views(before));
            }
        }
        if let Some(urls) = s.adblock_urls.take() {
            fold_lists(&mut s.lists, &urls);
        }
        if let Some(older) = s.custom_domains.take() {
            fold_rewrites(&mut s.rewrites, &older);
        }
        s.local_port = None;
        s
    }

    /// Whether the settings can be used, and if not, why.
    pub fn validate(&self) -> (r: Result<(), SettingsError>)
        ensures
            match r {
                Ok(_) => self.flaw() is None,
                Err(e) => self.flaw() == Some(e@),
            },
    {
        if self.enabled && self.upstreams.len() == 0 {
            return Err(SettingsError::NoUpstreams);
        }
        if let Some(e) = first_upstream_flaw(&self.upstreams) {
            return Err(SettingsError::Upstream(e));
        }
        if any_incomplete(&self.rewrites) {
            return Err(SettingsError::IncompleteRewrite);
        }
        if let Some(s) = first_unknown_service(&self.blocked_services) {
            return Err(SettingsError::UnknownService(s));
        }
        if self.cache_min_ttl > self.cache_max_ttl {
            return Err(SettingsError::TtlRange);
        }
        Ok(())
    }
}

fn first_upstream_flaw(specs: &Vec<String>) -> (r: Option<UpstreamError>)
    ensures
        r == upstream_flaw(string_views(specs@)),
{
    let ghost all = string_views(specs@);
    let mut i: usize = 0;
    assert(all.subrange(0, all.len() as int) =~= all);
    while i < specs.len()
        invariant
            all == string_views(specs@),
            i <= specs@.len(),
            upstream_flaw(all) == upstream_flaw(all.subrange(i as int, all.len() as int)),
        decreases specs@.len() - i,
    {
        let ghost rest = all.subrange(i as int, all.len() as int);
        assert(rest.drop_first() =~= all.subrange(i + 1, all.len() as int));
        assert(rest[0] == specs@[i as int]@);
        match Upstream::parse(&specs[i]) {
            Ok(_) => {},
            Err(e) => {
                return Some(e);
            },
        }
        i += 1;
    }
    assert(all.subrange(i as int, all.len() as int) =~= Seq::<Seq<char>>::empty());
    None
}

fn any_incomplete(list: &Vec<Rewrite>) -> (r: bool)
    ensures
        r == some_incomplete(rewrite_views(list@)),
{
    let mut i: usize = 0;
    while i < list.len()
        invariant
            i <= list@.len(),
            forall|k: int| 0 <= k < i ==> !incomplete(#[trigger] rewrite_views(list@)[k]),
        decreases list@.len() - i,
    {
        let d = chars_of(&list[i].domain);
        let a = chars_of(&list[i].answer);
        if trimmed(&d).len() == 0 || trimmed(&a).len() == 0 {
            assert(incomplete(rewrite_views(list@)[i as int]));
            return true;
        }
        i += 1;
    }
    false
}

fn first_unknown_service(ids: &Vec<String>) -> (r: Option<String>)
    ensures
        match r {
            Some(s) => unknown_service(string_views(ids@)) == Some(s@),
            None => unknown_service(string_views(ids@)) is None,
        },
{
    let ghost all = string_views(ids@);
    let mut i: usize = 0;
    assert(all.subrange(0, all.len() as int) =~= all);
    while i < ids.len()
        invariant
            all == string_views(ids@),
            i <= ids@.len(),
            unknown_service(all) == unknown_service(all.subrange(i as int, all.len() as int)),
        decreases ids@.len() - i,
    {
        let ghost rest = all.subrange(i as int, all.len() as int);
        assert(rest.drop_first() =~= all.subrange(i + 1, all.len() as int));
        assert(rest[0] == ids@[i as int]@);
        if !is_service(&ids[i]) {
            return Some(owned(&ids[i]));
        }
        i += 1;
    }
    assert(all.subrange(i as int, all.len() as int) =~= Seq::<Seq<char>>::empty());
    None
}

// ── Laws ─────────────────────────────────────────────────────────────────────

/// Folding loses nothing: every upstream is still there, in its order, and so is
/// the older one.
pub proof fn folding_keeps_upstreams(upstreams: Seq<Seq<char>>, doh: Option<Seq<char>>, u: Seq<char>)
    requires
        upstreams.contains(u) || (doh == Some(u) && u.len() > 0),
    ensures
        folded_upstreams(upstreams, doh).contains(u),
{
    let f = folded_upstreams(upstreams, doh);
    if upstreams.contains(u) {
        let i = choose|i: int| 0 <= i < upstreams.len() && upstreams[i] == u;
        if f.len() > upstreams.len() {
            assert(f[i + 1] == u);
        } else {
            assert(f[i] == u);
        }
    } else {
        assert(f[0] == u);
    }
}

/// Folding is done once: with nothing older left, nothing changes.
pub proof fn folding_is_done_once(
    upstreams: Seq<Seq<char>>,
    lists: Seq<(Seq<char>, Seq<char>, bool)>,
    rewrites: Seq<(Seq<char>, Seq<char>)>,
)
    ensures
        folded_upstreams(upstreams, None) == upstreams,
        folded_lists(lists, Seq::empty()) == lists,
        folded_rewrites(rewrites, Seq::empty()) == rewrites,
{
}

/// Every older list is among the lists, turned on, and every list that was there stays.
pub proof fn older_lists_are_folded_in(lists: Seq<(Seq<char>, Seq<char>, bool)>, urls: Seq<Seq<char>>, i: int)
    ensures
        0 <= i < urls.len() ==> has_url(folded_lists(lists, urls), urls[i]),
        0 <= i < lists.len() ==> folded_lists(lists, urls).len() >= lists.len() && folded_lists(lists, urls)[i] == lists[i],
        lists.len() <= i < folded_lists(lists, urls).len() ==> folded_lists(lists, urls)[i].2 && urls.contains(
            folded_lists(lists, urls)[i].1,
        ),
        folded_lists(lists, urls).len() >= lists.len(),
    decreases urls.len(),
{
    if urls.len() > 0 {
        let d = urls.drop_last();
        let l = folded_lists(lists, d);
        let r = folded_lists(lists, urls);
        older_lists_are_folded_in(lists, d, i);
        if 0 <= i < d.len() {
            assert(d[i] == urls[i]);
            let k = choose|k: int| 0 <= k < l.len() && (#[trigger] l[k]).1 == urls[i];
            assert(r[k].1 == urls[i]);
        } else if i == d.len() {
            if !has_url(l, urls.last()) {
                assert(r[r.len() - 1].1 == urls[i]);
            }
        }
        if lists.len() <= i < r.len() {
            if i < l.len() {
                let k = choose|k: int| 0 <= k < d.len() && d[k] == l[i].1;
                assert(urls[k] == r[i].1);
            } else {
                assert(urls[urls.len() - 1] == r[i].1);
            }
        }
    }
}

/// Every older rewrite is among the rewrites, unless its name has one already; those that were
/// there stay.
pub proof fn older_rewrites_are_folded_in(
    rewrites: Seq<(Seq<char>, Seq<char>)>,
    older: Seq<(Seq<char>, Seq<char>)>,
    i: int,
)
    ensures
        0 <= i < older.len() ==> has_domain(folded_rewrites(rewrites, older), older[i].0),
        0 <= i < rewrites.len() ==> folded_rewrites(rewrites, older)[i] == rewrites[i],
        rewrites.len() <= i < folded_rewrites(rewrites, older).len() ==> older.contains(folded_rewrites(rewrites, older)[i]),
        folded_rewrites(rewrites, older).len() >= rewrites.len(),
    decreases older.len(),
{
    if older.len() > 0 {
        let d = older.drop_last();
        let l = folded_rewrites(rewrites, d);
        let r = folded_rewrites(rewrites, older);
        older_rewrites_are_folded_in(rewrites, d, i);
        if 0 <= i < d.len() {
            assert(d[i] == older[i]);
            let k = choose|k: int| 0 <= k < l.len() && (#[trigger] l[k]).0 == older[i].0;
            assert(r[k].0 == older[i].0);
        } else if i == d.len() {
            if !has_domain(l, older.last().0) {
                assert(r[r.len() - 1].0 == older[i].0);
            }
        }
        if rewrites.len() <= i < r.len() {
            if i < l.len() {
                let k = choose|k: int| 0 <= k < d.len() && d[k] == l[i];
                assert(older[k] == r[i]);
            } else {
                assert(older[older.len() - 1] == r[i]);
            }
        }
    }
}

proof fn lemma_upstream_flaw(specs: Seq<Seq<char>>)
    ensures
        upstream_flaw(specs) is None <==> forall|i: int| 0 <= i < specs.len() ==> read_upstream(#[trigger] specs[i]) is Ok,
    decreases specs.len(),
{
    if specs.len() > 0 {
        let d = specs.drop_first();
        lemma_upstream_flaw(d);
        assert(forall|i: int| 0 <= i < d.len() ==> d[i] == specs[i + 1]);
        if read_upstream(specs[0]) is Ok {
            if upstream_flaw(d) is None {
                assert forall|i: int| 0 <= i < specs.len() implies read_upstream(#[trigger] specs[i]) is Ok by {
                    if i > 0 {
                        assert(d[i - 1] == specs[i]);
                    }
                }
            } else {
                let i = choose|i: int| 0 <= i < d.len() && !(read_upstream(#[trigger] d[i]) is Ok);
                assert(specs[i + 1] == d[i]);
            }
        }
    }
}

proof fn lemma_unknown_service(ids: Seq<Seq<char>>)
    ensures
        unknown_service(ids) is None <==> forall|i: int| 0 <= i < ids.len() ==> known_service(#[trigger] ids[i]),
    decreases ids.len(),
{
    if ids.len() > 0 {
        let d = ids.drop_first();
        lemma_unknown_service(d);
        assert(forall|i: int| 0 <= i < d.len() ==> d[i] == ids[i + 1]);
        if known_service(ids[0]) {
            if unknown_service(d) is None {
                assert forall|i: int| 0 <= i < ids.len() implies known_service(#[trigger] ids[i]) by {
                    if i > 0 {
                        assert(d[i - 1] == ids[i]);
                    }
                }
            } else {
                let i = choose|i: int| 0 <= i < d.len() && !known_service(#[trigger] d[i]);
                assert(ids[i + 1] == d[i]);
            }
        }
    }
}

/// Settings are without a flaw exactly where there is an upstream, unless the filter is off, every
/// upstream can be read, every rewrite is complete, every service is known, and the shortest
/// time is no longer than the longest.
pub proof fn good_settings_have_no_flaw(s: DnsSettings)
    ensures
        s.flaw() is None <==> {
            &&& s.enabled ==> s.upstreams@.len() > 0
            &&& forall|i: int| 0 <= i < s.upstreams@.len() ==> read_upstream((#[trigger] s.upstreams@[i])@) is Ok
            &&& forall|i: int|
                0 <= i < s.rewrites@.len() ==> trim((#[trigger] s.rewrites@[i]).domain@).len() > 0 && trim(
                    s.rewrites@[i].answer@,
                ).len() > 0
            &&& forall|i: int| 0 <= i < s.blocked_services@.len() ==> known_service((#[trigger] s.blocked_services@[i])@)
            &&& s.cache_min_ttl <= s.cache_max_ttl
        },
        s.enabled && s.upstreams@.len() == 0 ==> s.flaw() == Some(Flaw::NoUpstreams),
{
    let specs = string_views(s.upstreams@);
    let all = rewrite_views(s.rewrites@);
    let ids = string_views(s.blocked_services@);
    lemma_upstream_flaw(specs);
    lemma_unknown_service(ids);
    assert(forall|i: int| 0 <= i < specs.len() ==> specs[i] == (#[trigger] s.upstreams@[i])@);
    assert(forall|i: int| 0 <= i < all.len() ==> all[i] == ((#[trigger] s.rewrites@[i]).domain@, s.rewrites@[i].answer@));
    assert(forall|i: int| 0 <= i < ids.len() ==> ids[i] == (#[trigger] s.blocked_services@[i])@);
}

} // verus!
