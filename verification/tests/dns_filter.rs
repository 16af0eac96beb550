use ostp::dns::filter::{Filter, Verdict};
use ostp::dns::glob::glob;
use ostp::dns::lists::{build_filter, cache_path, lists_dir, update_due, ListText};
use ostp::dns::services::{is_doh_name, is_public_resolver, is_service, safe_search_target, service_of};
use ostp::dns::settings::{DnsSettings, Rewrite, SettingsError, UpstreamMode};
use ostp::dns::upstream::{AskStep, Upstream, UpstreamError, Upstreams};
use ostp::net::{ip_of, socket_of};
use ostp::time::Duration;

fn filter(text: &str) -> Filter {
    let mut f = Filter::new();
    f.add_source("test", text, false);
    f
}

fn blocked(f: &Filter, n: &str) -> bool {
    matches!(f.check(n), Verdict::Blocked(_))
}

#[test]
fn adblock_syntax() {
    let f = filter("! comment\n||ads.example.org^\n|exact.example.org^\nplain.example.com\n@@||good.ads.example.org^\n||tracker*.example.net^\n##.banner\n/ads[0-9]+/\n||x.example$third-party\n");
    assert!(blocked(&f, "ads.example.org"));
    assert!(blocked(&f, "img.ads.example.org."));
    assert!(!blocked(&f, "good.ads.example.org"));
    assert!(matches!(f.check("good.ads.example.org"), Verdict::Allowed(ref m) if m.rule == "@@||good.ads.example.org^"));
    assert!(blocked(&f, "exact.example.org"));
    assert!(!blocked(&f, "sub.exact.example.org"));
    assert!(blocked(&f, "cdn.plain.example.com"));
    assert!(blocked(&f, "tracker42.example.net"));
    assert!(blocked(&f, "a.tracker7.example.net"));
    assert!(!blocked(&f, "example.net"));
    assert!(!blocked(&f, "x.example"), "rules with unknown modifiers are not applied");
    assert_eq!(f.sources[0].rules, 5);
    assert_eq!(f.sources[0].unsupported, 2);
    match f.check("img.ads.example.org") {
        Verdict::Blocked(m) => {
            assert_eq!(m.rule, "||ads.example.org^");
            assert_eq!(m.source, "test");
        }
        v => panic!("{v:?}"),
    }
}

#[test]
fn important_beats_exceptions() {
    let f = filter("@@||site.example^\n||site.example^$important\n");
    assert!(blocked(&f, "site.example"));
}

#[test]
fn hosts_syntax_blocks_or_answers() {
    let f = filter("127.0.0.1 localhost\n0.0.0.0 bad.example.org\n0.0.0.0 x.example.org y.example.org # two\n192.168.1.5 nas.lan\n");
    assert!(blocked(&f, "bad.example.org"));
    assert!(!blocked(&f, "sub.bad.example.org"), "hosts lines are exact");
    assert!(blocked(&f, "y.example.org"));
    assert!(!blocked(&f, "localhost"));
    assert_eq!(f.answers("nas.lan"), vec![ip_of("192.168.1.5").unwrap()]);
}

#[test]
fn allow_lists_turn_everything_into_exceptions() {
    let mut f = Filter::new();
    f.add_source("block", "||example.com^\n", false);
    f.add_source("allow", "www.example.com\n", true);
    assert!(blocked(&f, "api.example.com"));
    assert!(!blocked(&f, "www.example.com"));
}

#[test]
fn allowed_hosts_lines_are_exceptions() {
    let mut f = Filter::new();
    f.add_source("block", "||example.com^\n||nas.lan^\n", false);
    f.add_source("allow", "0.0.0.0 www.example.com\n192.168.1.5 nas.lan\n", true);
    assert!(blocked(&f, "api.example.com"));
    assert!(!blocked(&f, "www.example.com"));
    assert!(!blocked(&f, "nas.lan"));
    assert_eq!(f.sources[1].rules, 2);
    assert_eq!(f.sources[1].unsupported, 0);
}

#[test]
fn lines_without_effect_are_not_counted_as_rules() {
    let f = filter("0.0.0.0 localhost\n0.0.0.0 printer\n0.0.0.0 ads.example.org\n||x.example$third-party\n! comment\n");
    assert_eq!(f.sources[0].rules, 1);
    assert_eq!(f.sources[0].unsupported, 2);
}

#[test]
fn each_form_matches_its_names() {
    for (text, below) in [("||d.test^", true), ("d.test", true), ("|d.test^", false), ("0.0.0.0 d.test", false), ("::1 d.test e.test", false)] {
        let f = filter(text);
        assert!(blocked(&f, "d.test"), "{}", text);
        assert!(blocked(&f, "D.TEST."), "{}", text);
        assert_eq!(blocked(&f, "a.d.test"), below, "{}", text);
        assert!(!blocked(&f, "xd.test"), "{}", text);
        assert!(!blocked(&f, "test"), "{}", text);
    }
    assert!(!blocked(&filter("1.2.3.4"), "1.2.3.4"), "an address alone is no rule");
    assert!(matches!(filter("d.test\n@@|d.test^").check("d.test"), Verdict::Allowed(_)));
    assert!(blocked(&filter("d.test\n@@|d.test^"), "a.d.test"));
    assert!(blocked(&filter("d.test$important\n@@|d.test^"), "d.test"));
}

#[test]
fn glob_matching() {
    assert!(glob("ad*.example.com", "ads1.example.com"));
    assert!(glob("*.example.com", "a.b.example.com"));
    assert!(!glob("ad*.example.com", "x.example.com"));
    assert!(glob("a*b*c", "axxbyyc"));
}

#[test]
fn a_star_matches_any_text() {
    assert!(glob("*", ""));
    assert!(glob("a*a", "aa"));
    assert!(!glob("a*a", "a"));
    assert!(glob("*ab*ab", "abab"));
    assert!(!glob("*ab*ab", "ab"));
}

#[test]
fn names_that_no_rule_is_for_are_left_alone() {
    let f = filter("||ads.example^\n");
    assert!(matches!(f.check("example"), Verdict::Unlisted));
    assert!(matches!(f.check("notads.example"), Verdict::Unlisted));
    assert!(matches!(Filter::new().check("a.b"), Verdict::Unlisted));
    assert_eq!(f.rule_count(), 1);
    assert_eq!(f.source_stats()[0].name, "test");
}

#[test]
fn safe_search_names() {
    assert_eq!(safe_search_target("www.google.com"), Some("forcesafesearch.google.com"));
    assert_eq!(safe_search_target("www.google.co.uk"), Some("forcesafesearch.google.com"));
    assert_eq!(safe_search_target("google.ru"), Some("forcesafesearch.google.com"));
    assert_eq!(safe_search_target("mail.google.com"), None);
    assert_eq!(safe_search_target("www.youtube.com"), Some("restrict.youtube.com"));
    assert_eq!(safe_search_target("example.com"), None);
}

#[test]
fn services_match_subdomains() {
    let b = vec!["tiktok".to_string()];
    assert_eq!(service_of("v16.tiktokcdn.com", &b), Some("TikTok"));
    assert_eq!(service_of("tiktok.com", &b), Some("TikTok"));
    assert_eq!(service_of("youtube.com", &b), None);
    assert_eq!(service_of("nottiktok.com", &b), None);
}

#[test]
fn public_resolvers_are_known() {
    assert!(is_service("tiktok") && !is_service("nothing"));
    assert!(is_doh_name("use-application-dns.net"));
    assert!(!is_doh_name("example.com"));
    assert!(is_public_resolver(ip_of("1.1.1.1").unwrap()));
    assert!(is_public_resolver(ip_of("::ffff:1.1.1.1").unwrap()));
    assert!(!is_public_resolver(ip_of("93.184.216.34").unwrap()));
}

#[test]
fn legacy_fields_fold_in() {
    let s = DnsSettings {
        enabled: true,
        doh_upstream: Some("https://doh.example/dns-query".into()),
        adblock_urls: Some(vec!["https://l.example/a.txt".into()]),
        custom_domains: Some(vec![("nas.lan".into(), "192.168.1.5".into())]),
        local_port: Some(50053),
        ..Default::default()
    };
    let s = s.normalized();
    assert_eq!(s.upstreams[0], "https://doh.example/dns-query");
    assert!(s.lists.iter().any(|l| l.url == "https://l.example/a.txt"));
    assert_eq!(s.rewrites.len(), 1);
    assert_eq!(s.rewrites[0].domain, "nas.lan");
    assert_eq!(s.rewrites[0].answer, "192.168.1.5");
    assert!(s.doh_upstream.is_none() && s.local_port.is_none());
    s.validate().unwrap();
}

#[test]
fn settings_that_cannot_work_are_refused() {
    let none = DnsSettings { enabled: true, upstreams: vec![], ..Default::default() };
    assert!(matches!(none.validate(), Err(SettingsError::NoUpstreams)));
    let bad = DnsSettings { upstreams: vec!["dns.google".into()], ..Default::default() };
    assert!(matches!(bad.validate(), Err(SettingsError::Upstream(UpstreamError::NotAnAddress))));
    let empty = DnsSettings { rewrites: vec![Rewrite { domain: "".into(), answer: "1.1.1.1".into() }], ..Default::default() };
    assert!(matches!(empty.validate(), Err(SettingsError::IncompleteRewrite)));
    let service = DnsSettings { blocked_services: vec!["nothing".into()], ..Default::default() };
    assert!(matches!(service.validate(), Err(SettingsError::UnknownService(ref s)) if s == "nothing"));
    let ttl = DnsSettings { cache_min_ttl: 10, cache_max_ttl: 5, ..Default::default() };
    assert!(matches!(ttl.validate(), Err(SettingsError::TtlRange)));
}

fn socket(s: &str) -> ostp::net::SocketAddr {
    socket_of(s).unwrap()
}

#[test]
fn parse_forms() {
    assert!(matches!(Upstream::parse("1.1.1.1").unwrap(), Upstream::Udp(a) if a == socket("1.1.1.1:53")));
    assert!(matches!(Upstream::parse("udp://9.9.9.9:5353").unwrap(), Upstream::Udp(a) if a == socket("9.9.9.9:5353")));
    assert!(
        matches!(Upstream::parse("tcp://[2606:4700::1111]").unwrap(), Upstream::Tcp(a) if a == socket("[2606:4700::1111]:53"))
    );
    assert!(
        matches!(Upstream::parse("tls://dns.quad9.net").unwrap(), Upstream::Dot { ref host, port: 853 } if host == "dns.quad9.net")
    );
    assert!(
        matches!(Upstream::parse("tls://1.1.1.1:8853").unwrap(), Upstream::Dot { ref host, port: 8853 } if host == "1.1.1.1")
    );
    assert!(matches!(Upstream::parse("https://dns.google/dns-query").unwrap(), Upstream::Doh(_)));
    assert!(Upstream::parse("dns.google").is_err());
}

#[test]
fn upstreams_that_are_none_are_named() {
    assert_eq!(Upstream::parse("dns.google").unwrap_err(), UpstreamError::NotAnAddress);
    assert_eq!(Upstream::parse("tls://").unwrap_err(), UpstreamError::NoHost);
    assert_eq!(Upstream::parse("tls://dns.quad9.net:99999").unwrap_err(), UpstreamError::InvalidPort);
    assert_eq!(Upstream::parse("udp://9.9.9.9:5353").unwrap().label(), "udp://9.9.9.9:5353");
}

#[test]
fn lists_have_their_own_files() {
    assert_eq!(lists_dir("/var/lib/ostp"), "/var/lib/ostp/dns/lists");
    let a = cache_path("/d", "https://a.example/list.txt");
    assert_eq!(a, cache_path("/d", "https://a.example/list.txt"));
    assert_ne!(a, cache_path("/d", "https://b.example/list.txt"));
    assert!(a.starts_with("/d/dns/lists/") && a.ends_with(".txt"));
    assert_eq!(cache_path("/d", ""), "/d/dns/lists/cbf29ce484222325.txt");
}

#[test]
fn lists_are_due_when_they_are_old_or_missing() {
    let s = DnsSettings { enabled: true, ..Default::default() };
    assert!(update_due(&s, &[None]));
    assert!(!update_due(&s, &[Some(Duration::from_secs(60))]));
    assert!(update_due(&s, &[Some(Duration::from_secs(25 * 3600))]));
}

#[test]
fn the_users_own_rules_come_last() {
    let lists = vec![ListText { name: "l".to_string(), text: "||a.example^\n".to_string(), allow: false }];
    let f = build_filter(&lists, &vec!["||b.example^".to_string()]);
    assert!(blocked(&f, "a.example") && blocked(&f, "b.example"));
    assert_eq!(f.source_stats()[1].name, "user rules");
}

#[test]
fn fallback_to_the_next_upstream() {
    let addr = "127.0.0.1:5300";
    let ups = Upstreams::new(&vec!["tcp://127.0.0.1:1".into(), format!("udp://{addr}")], UpstreamMode::Fallback).unwrap();
    let q = [0xAB, 0xCD, 1, 0, 0, 1, 0, 0, 0, 0, 0, 0, 0, 0, 1, 0, 1];
    let (mut asking, first) = ups.query();
    assert!(matches!(first, AskStep::Ask { first: 0, count: 1 }));
    let next = ups.on_result(&mut asking, 0, Err("connection refused".to_string()));
    assert!(matches!(next, AskStep::Ask { first: 1, count: 1 }));
    let mut r = q.to_vec();
    r[2] |= 0x80;
    match ups.on_result(&mut asking, 1, Ok(r)) {
        AskStep::Answer { answer, upstream } => {
            assert_eq!(&answer[..2], &[0xAB, 0xCD]);
            assert_eq!(upstream, format!("udp://{addr}"));
        }
        _ => panic!("expected an answer"),
    }
}

#[test]
fn a_question_fails_once_no_upstream_is_left() {
    let specs = vec!["1.1.1.1".to_string(), "9.9.9.9".to_string()];
    let one = Upstreams::new(&specs, UpstreamMode::Fallback).unwrap();
    let (mut asking, _) = one.query();
    assert!(matches!(one.on_result(&mut asking, 0, Ok(vec![0; 11])), AskStep::Ask { first: 1, count: 1 }));
    assert!(matches!(one.on_result(&mut asking, 1, Ok(vec![0; 11])), AskStep::Fail(ref why) if why == "udp://9.9.9.9:53: short answer"));

    let all = Upstreams::new(&specs, UpstreamMode::Parallel).unwrap();
    let (mut asking, step) = all.query();
    assert!(matches!(step, AskStep::Ask { first: 0, count: 2 }));
    assert!(matches!(all.on_result(&mut asking, 1, Err("gone".to_string())), AskStep::Wait));
    assert!(matches!(all.on_result(&mut asking, 0, Err("late".to_string())), AskStep::Fail(ref why) if why == "udp://1.1.1.1:53: late"));

    let none = Upstreams::new(&vec![], UpstreamMode::Parallel).unwrap();
    assert!(matches!(none.query().1, AskStep::Fail(ref why) if why == "no upstream resolvers configured"));
    assert!(matches!(Upstreams::new(&vec!["x".to_string()], UpstreamMode::Fallback), Err(UpstreamError::NotAnAddress)));
}
