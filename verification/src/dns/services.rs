//! Built-in data: services that can be blocked as a whole, safe search, and the
//! ways in which browsers and devices go round a resolver.

use vstd::prelude::*;
use vstd::slice::slice_subrange;

use crate::net::{ip_of, read_ip, IpAddr};
use crate::text::{
    alpha, begins_str, chars_of, ends, ends_with, is_alpha, pieces, put_chars, same_chars, same_str, split, starts_with,
    string_views, views,
};

verus! {

/// Services that can be blocked: id, name, and the domains that are blocked with
/// their subdomains.
pub const SERVICES: [(&'static str, &'static str, &'static str); 14] = [
    ("tiktok", "TikTok", "tiktok.com tiktokv.com tiktokcdn.com tiktokcdn-us.com byteoversea.com ibytedtos.com musical.ly"),
    ("facebook", "Facebook", "facebook.com facebook.net fbcdn.net fb.com fb.me fbsbx.com messenger.com"),
    ("instagram", "Instagram", "instagram.com cdninstagram.com ig.me instagr.am"),
    ("youtube", "YouTube", "youtube.com youtu.be ytimg.com googlevideo.com youtube-nocookie.com youtubei.googleapis.com youtube.googleapis.com"),
    ("twitter", "X (Twitter)", "twitter.com x.com twimg.com t.co"),
    ("vk", "VK", "vk.com vk.ru userapi.com vk-cdn.net vkuser.net vk.me"),
    ("telegram", "Telegram", "telegram.org telegram.me t.me telesco.pe tdesktop.com"),
    ("whatsapp", "WhatsApp", "whatsapp.com whatsapp.net wa.me"),
    ("discord", "Discord", "discord.com discord.gg discordapp.com discordapp.net discord.media"),
    ("reddit", "Reddit", "reddit.com redd.it redditmedia.com redditstatic.com"),
    ("twitch", "Twitch", "twitch.tv twitchcdn.net ttvnw.net jtvnw.net"),
    ("netflix", "Netflix", "netflix.com nflxvideo.net nflximg.net nflxext.com nflxso.net"),
    ("steam", "Steam", "steampowered.com steamcommunity.com steamstatic.com steamcontent.com"),
    ("roblox", "Roblox", "roblox.com rbxcdn.com rbx.com"),
];

/// Safe search: a name, and the name that it is answered with.
pub const SAFE_SEARCH: [(&'static str, &'static str); 15] = [
    ("www.youtube.com", "restrict.youtube.com"),
    ("m.youtube.com", "restrict.youtube.com"),
    ("youtubei.googleapis.com", "restrict.youtube.com"),
    ("youtube.googleapis.com", "restrict.youtube.com"),
    ("www.youtube-nocookie.com", "restrict.youtube.com"),
    ("www.bing.com", "strict.bing.com"),
    ("bing.com", "strict.bing.com"),
    ("duckduckgo.com", "safe.duckduckgo.com"),
    ("www.duckduckgo.com", "safe.duckduckgo.com"),
    ("yandex.ru", "familysearch.yandex.ru"),
    ("www.yandex.ru", "familysearch.yandex.ru"),
    ("yandex.com", "familysearch.yandex.ru"),
    ("www.yandex.com", "familysearch.yandex.ru"),
    ("ya.ru", "familysearch.yandex.ru"),
    ("www.ya.ru", "familysearch.yandex.ru"),
];

/// Where this name does not resolve, Firefox turns its own DNS over HTTPS off.
pub const DOH_CANARY: &'static str = "use-application-dns.net";

/// Public servers of DNS over HTTPS that browsers switch to on their own.
pub const DOH_HOSTS: [&'static str; 17] = [
    "dns.google",
    "dns.google.com",
    "cloudflare-dns.com",
    "mozilla.cloudflare-dns.com",
    "chrome.cloudflare-dns.com",
    "one.one.one.one",
    "1dot1dot1dot1.cloudflare-dns.com",
    "dns.quad9.net",
    "dns9.quad9.net",
    "doh.opendns.com",
    "doh.cleanbrowsing.org",
    "dns.adguard-dns.com",
    "dns.adguard.com",
    "doh.dns.sb",
    "dns.nextdns.io",
    "doh.mullvad.net",
    "common.dot.dns.yandex.net",
];

/// Public resolvers that answer encrypted queries on their own addresses. Devices
/// switch to that by themselves when the system's resolver is one of these; the
/// queries would then pass the filter unread.
pub const RESOLVER_IPS: [&'static str; 57] = [
    "1.1.1.1",
    "1.0.0.1",
    "1.1.1.2",
    "1.0.0.2",
    "1.1.1.3",
    "1.0.0.3",
    "2606:4700:4700::1111",
    "2606:4700:4700::1001",
    "2606:4700:4700::1112",
    "2606:4700:4700::1002",
    "2606:4700:4700::1113",
    "2606:4700:4700::1003",
    "8.8.8.8",
    "8.8.4.4",
    "2001:4860:4860::8888",
    "2001:4860:4860::8844",
    "9.9.9.9",
    "149.112.112.112",
    "9.9.9.10",
    "149.112.112.10",
    "9.9.9.11",
    "149.112.112.11",
    "2620:fe::fe",
    "2620:fe::9",
    "2620:fe::10",
    "2620:fe::fe:10",
    "2620:fe::11",
    "2620:fe::fe:11",
    "94.140.14.14",
    "94.140.15.15",
    "94.140.14.15",
    "94.140.15.16",
    "94.140.14.140",
    "94.140.14.141",
    "2a10:50c0::ad1:ff",
    "2a10:50c0::ad2:ff",
    "208.67.222.222",
    "208.67.220.220",
    "208.67.222.123",
    "208.67.220.123",
    "2620:119:35::35",
    "2620:119:53::53",
    "185.228.168.9",
    "185.228.169.9",
    "185.228.168.168",
    "185.228.169.168",
    "185.222.222.222",
    "45.11.45.11",
    "194.242.2.2",
    "194.242.2.3",
    "194.242.2.4",
    "45.90.28.0",
    "45.90.30.0",
    "77.88.8.8",
    "77.88.8.1",
    "77.88.8.88",
    "77.88.8.2",
];

/// The domains of the `i`th service.
pub open spec fn domains_of(i: int) -> Seq<Seq<char>> {
    split(SERVICES@[i].2@, ' ')
}

/// A domain or a name below it.
pub open spec fn within(name: Seq<char>, d: Seq<char>) -> bool {
    name == d || ends_with(name, seq!['.'] + d)
}

pub open spec fn serves(i: int, name: Seq<char>) -> bool {
    exists|k: int| 0 <= k < domains_of(i).len() && within(name, #[trigger] domains_of(i)[k])
}

/// The first blocked service, from the `i`th on, that a name belongs to.
pub open spec fn service_from(i: int, name: Seq<char>, blocked: Seq<Seq<char>>) -> Option<Seq<char>>
    decreases SERVICES@.len() - i,
{
    if i < 0 || i >= SERVICES@.len() {
        None
    } else if blocked.contains(SERVICES@[i].0@) && serves(i, name) {
        Some(SERVICES@[i].1@)
    } else {
        service_from(i + 1, name, blocked)
    }
}

fn is_within(name: &[char], d: &[char]) -> (r: bool)
    ensures
        r == within(name@, d@),
{
    if same_chars(name, d) {
        return true;
    }
    let mut p: Vec<char> = Vec::new();
    p.push('.');
    put_chars(&mut p, d);
    assert(p@ =~= seq!['.'] + d@);
    ends(name, &p)
}

fn holds_text(list: &[String], s: &str) -> (r: bool)
    ensures
        r == string_views(list@).contains(s@),
{
    let mut i: usize = 0;
    while i < list.len()
        invariant
            i <= list@.len(),
            forall|k: int| 0 <= k < i ==> #[trigger] string_views(list@)[k] != s@,
        decreases list@.len() - i,
    {
        if same_str(&list[i], s) {
            assert(string_views(list@)[i as int] == s@);
            return true;
        }
        i += 1;
    }
    false
}

fn has_within(parts: &Vec<Vec<char>>, name: &[char]) -> (r: bool)
    ensures
        r == exists|k: int| 0 <= k < views(parts@).len() && within(name@, #[trigger] views(parts@)[k]),
{
    let mut i: usize = 0;
    while i < parts.len()
        invariant
            i <= parts@.len(),
            forall|k: int| 0 <= k < i ==> !within(name@, #[trigger] views(parts@)[k]),
        decreases parts@.len() - i,
    {
        if is_within(name, &parts[i]) {
            assert(within(name@, views(parts@)[i as int]));
            return true;
        }
        i += 1;
    }
    false
}

/// The blocked service that a name belongs to.
pub fn service_of(name: &str, blocked: &[String]) -> (r: Option<&'static str>)
    ensures
        match r {
            Some(s) => service_from(0, name@, string_views(blocked@)) == Some(s@),
            None => service_from(0, name@, string_views(blocked@)) is None,
        },
{
    let all = SERVICES;
    let n = chars_of(name);
    let mut i: usize = 0;
    while i < all.len()
        invariant
            all == SERVICES,
            n@ == name@,
            i <= all@.len(),
            service_from(0, name@, string_views(blocked@)) == service_from(i as int, name@, string_views(blocked@)),
        decreases all@.len() - i,
    {
        if holds_text(blocked, all[i].0) {
            let parts = pieces(&chars_of(all[i].2), ' ');
            assert(views(parts@) == domains_of(i as int));
            if has_within(&parts, &n) {
                return Some(all[i].1);
            }
        }
        i += 1;
    }
    None
}

/// Whether an id is that of a service.
pub open spec fn known_service(id: Seq<char>) -> bool {
    exists|i: int| 0 <= i < SERVICES@.len() && (#[trigger] SERVICES@[i]).0@ == id
}

/// Whether an id is that of a service.
pub fn is_service(id: &str) -> (r: bool)
    ensures
        r == known_service(id@),
{
    let all = SERVICES;
    let mut i: usize = 0;
    while i < all.len()
        invariant
            all == SERVICES,
            i <= all@.len(),
            forall|k: int| 0 <= k < i ==> (#[trigger] all@[k]).0@ != id@,
        decreases all@.len() - i,
    {
        if same_str(all[i].0, id) {
            assert(SERVICES@[i as int].0@ == id@);
            return true;
        }
        i += 1;
    }
    false
}

/// The target of a name in the table, from the `i`th entry on.
pub open spec fn safe_entry(i: int, name: Seq<char>) -> Option<Seq<char>>
    decreases SAFE_SEARCH@.len() - i,
{
    if i < 0 || i >= SAFE_SEARCH@.len() {
        None
    } else if SAFE_SEARCH@[i].0@ == name {
        Some(SAFE_SEARCH@[i].1@)
    } else {
        safe_entry(i + 1, name)
    }
}

/// A label of two or three letters.
pub open spec fn country_label(l: Seq<char>) -> bool {
    2 <= l.len() <= 3 && forall|i: int| 0 <= i < l.len() ==> is_alpha(#[trigger] l[i])
}

/// A name without `www.` in front.
pub open spec fn without_www(name: Seq<char>) -> Seq<char> {
    if starts_with(name, "www."@) {
        name.subrange(4, name.len() as int)
    } else {
        name
    }
}

/// The labels behind `google.`.
pub open spec fn google_labels(bare: Seq<char>) -> Seq<Seq<char>> {
    split(bare.subrange(7, bare.len() as int), '.')
}

/// `google.` and labels of two or three letters, with `www.` in front or not.
pub open spec fn google_name(name: Seq<char>) -> bool {
    let labels = google_labels(without_www(name));
    starts_with(without_www(name), "google."@) && forall|i: int|
        0 <= i < labels.len() ==> country_label(#[trigger] labels[i])
}

/// What a name is answered with where safe search is forced.
pub open spec fn safe_target(name: Seq<char>) -> Option<Seq<char>> {
    match safe_entry(0, name) {
        Some(t) => Some(t),
        None => if google_name(name) {
            Some("forcesafesearch.google.com"@)
        } else {
            None
        },
    }
}

fn is_country_label(l: &[char]) -> (r: bool)
    ensures
        r == country_label(l@),
{
    if l.len() < 2 || l.len() > 3 {
        return false;
    }
    let mut i: usize = 0;
    while i < l.len()
        invariant
            i <= l@.len(),
            2 <= l@.len() <= 3,
            forall|k: int| 0 <= k < i ==> is_alpha(#[trigger] l@[k]),
        decreases l@.len() - i,
    {
        if !alpha(l[i]) {
            return false;
        }
        i += 1;
    }
    true
}

fn is_google(name: &[char]) -> (r: bool)
    ensures
        r == google_name(name@),
{
    proof {
        reveal_strlit("www.");
        reveal_strlit("google.");
    }
    let n: usize = name.len();
    let bare = if begins_str(name, "www.") {
        slice_subrange(name, 4, n)
    } else {
        name
    };
    if !begins_str(bare, "google.") {
        return false;
    }
    let m: usize = bare.len();
    let labels = pieces(slice_subrange(bare, 7, m), '.');
    let mut i: usize = 0;
    while i < labels.len()
        invariant
            i <= labels@.len(),
            m == bare@.len(),
            starts_with(bare@, "google."@),
            bare@ == without_www(name@),
            views(labels@) == google_labels(bare@),
            forall|k: int| 0 <= k < i ==> country_label(#[trigger] views(labels@)[k]),
        decreases labels@.len() - i,
    {
        if !is_country_label(&labels[i]) {
            assert(!country_label(views(labels@)[i as int]));
            return false;
        }
        i += 1;
    }
    true
}

/// What a name is answered with where safe search is forced.
pub fn safe_search_target(name: &str) -> (r: Option<&'static str>)
    ensures
        match r {
            Some(t) => safe_target(name@) == Some(t@),
            None => safe_target(name@) is None,
        },
{
    let all = SAFE_SEARCH;
    let mut i: usize = 0;
    while i < all.len()
        invariant
            all == SAFE_SEARCH,
            i <= all@.len(),
            safe_entry(0, name@) == safe_entry(i as int, name@),
        decreases all@.len() - i,
    {
        if same_str(all[i].0, name) {
            return Some(all[i].1);
        }
        i += 1;
    }
    if is_google(&chars_of(name)) {
        Some("forcesafesearch.google.com")
    } else {
        None
    }
}

/// A name by which browsers find their own DNS over HTTPS.
pub open spec fn doh_name(name: Seq<char>) -> bool {
    name == DOH_CANARY@ || exists|i: int| 0 <= i < DOH_HOSTS@.len() && (#[trigger] DOH_HOSTS@[i])@ == name
}

/// Whether browsers find their own DNS over HTTPS by a name.
pub fn is_doh_name(name: &str) -> (r: bool)
    ensures
        r == doh_name(name@),
{
    if same_str(name, DOH_CANARY) {
        return true;
    }
    let all = DOH_HOSTS;
    let mut i: usize = 0;
    while i < all.len()
        invariant
            all == DOH_HOSTS,
            i <= all@.len(),
            name@ != DOH_CANARY@,
            forall|k: int| 0 <= k < i ==> (#[trigger] all@[k])@ != name@,
        decreases all@.len() - i,
    {
        if same_str(all[i], name) {
            assert(DOH_HOSTS@[i as int]@ == name@);
            return true;
        }
        i += 1;
    }
    false
}

/// A text is that of an address.
#[verifier::opaque]
pub open spec fn is_text_of(s: Seq<char>, ip: IpAddr) -> bool {
    read_ip(s) == Some(ip)
}

fn text_names(s: &str, ip: IpAddr) -> (r: bool)
    ensures
        r == is_text_of(s@, ip),
{
    reveal(is_text_of);
    match ip_of(s) {
        Some(a) => a == ip,
        None => false,
    }
}

/// An address of a public resolver; an IPv6 address that stands for an IPv4 address
/// counts as that.
pub open spec fn public_resolver(ip: IpAddr) -> bool {
    exists|i: int| 0 <= i < RESOLVER_IPS@.len() && is_text_of((#[trigger] RESOLVER_IPS@[i])@, ip.canonical())
}

/// Whether an address is one of a public resolver.
pub fn is_public_resolver(ip: IpAddr) -> (r: bool)
    ensures
        r == public_resolver(ip),
{
    let c = ip.to_canonical();
    let all = RESOLVER_IPS;
    let mut i: usize = 0;
    while i < all.len()
        invariant
            all == RESOLVER_IPS,
            c == ip.canonical(),
            i <= all@.len(),
            forall|k: int| 0 <= k < i ==> !is_text_of((#[trigger] all@[k])@, c),
        decreases all@.len() - i,
    {
        if text_names(all[i], c) {
            assert(is_text_of(RESOLVER_IPS@[i as int]@, c));
            return true;
        }
        i += 1;
    }
    false
}

} // verus!
