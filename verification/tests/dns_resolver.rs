use ostp::dns::journal::Outcome;
use ostp::dns::resolver::{host_lookup, qtype_name, rewrite_matches, Dns, HostLookup, HostStep, Moment, Step};
use ostp::dns::services::DOH_CANARY;
use ostp::dns::settings::{BlockingMode, DnsSettings, Rewrite};
use ostp::dns::upstream::{is_answer, is_truncated, is_whole};
use ostp::net::{ip_of, IpAddr};
use ostp::time::Instant;
use simple_dns::rdata::{RData, A, CNAME};
use simple_dns::{Name, Packet, PacketFlag, Question, ResourceRecord, CLASS, QCLASS, QTYPE, TYPE};

fn query(name: &str, qtype: TYPE) -> Vec<u8> {
    let mut p = Packet::new_query(0x4242);
    p.set_flags(PacketFlag::RECURSION_DESIRED);
    p.questions.push(Question::new(Name::new(name).unwrap(), QTYPE::TYPE(qtype), QCLASS::CLASS(CLASS::IN), false));
    p.build_bytes_vec().unwrap()
}

/// Answers every question with 93.184.216.34, and cdn.clean.test with an alias of
/// ads.tracker.test.
fn upstream(asked: &[u8]) -> Vec<u8> {
    let q = Packet::parse(asked).unwrap();
    let mut r = Packet::new_reply(q.id());
    r.questions = q.questions.clone();
    r.set_flags(PacketFlag::RECURSION_AVAILABLE);
    let name = q.questions[0].qname.clone();
    if name.to_string() == "cdn.clean.test" {
        r.answers.push(ResourceRecord::new(name, CLASS::IN, 30, RData::CNAME(CNAME(Name::new("ads.tracker.test").unwrap()))));
    } else {
        r.answers.push(ResourceRecord::new(name, CLASS::IN, 30, RData::A(A { address: 0x5db8d822 })));
    }
    r.build_bytes_vec().unwrap()
}

fn at(secs: u64) -> Moment {
    Moment { now: Instant { nanos: secs * 1_000_000_000 }, time: 1_700_000_000 + secs }
}

fn handle(dns: &mut Dns, q: &[u8]) -> Option<Vec<u8>> {
    let me = ip_of("10.1.0.2").unwrap();
    match dns.begin(q, me, at(10), 7) {
        Step::Pass => None,
        Step::Reply(a) => a,
        Step::Ask(p) => {
            let a = upstream(&p.ask);
            dns.finish(p, Ok((a, "udp://127.0.0.1:53".to_string())), at(10))
        }
    }
}

fn resolve_host(dns: &mut Dns, host: &str) -> Result<Option<IpAddr>, String> {
    let me = ip_of("10.1.0.2").unwrap();
    match dns.open_host(host, me, at(10), 9) {
        HostStep::ByName => Ok(None),
        HostStep::Refused(why) => Err(why),
        HostStep::Lookup => {
            let mut replies = Vec::new();
            loop {
                match host_lookup(host, &replies, 11) {
                    HostLookup::Ask(q) => replies.push(handle(dns, &q)),
                    HostLookup::Found(ip) => return Ok(Some(ip)),
                    HostLookup::ByName => return Ok(None),
                }
            }
        }
    }
}

fn settings() -> DnsSettings {
    DnsSettings {
        enabled: true,
        upstreams: vec!["udp://127.0.0.1:53".into()],
        lists: Vec::new(),
        user_rules: vec!["||ads.tracker.test^".into(), "@@||ok.ads.tracker.test^".into(), "||blocked.test^".into()],
        rewrites: vec![Rewrite { domain: "panel.ostp".into(), answer: "10.1.0.1".into() }],
        blocked_services: vec!["tiktok".into()],
        ..Default::default()
    }
}

fn resolver(s: DnsSettings) -> Dns {
    Dns::new(s, &[], Instant { nanos: 0 })
}

fn rcode(a: &[u8]) -> u8 {
    a[3] & 0x0F
}

fn first_a(a: &[u8]) -> Option<u32> {
    Packet::parse(a).ok()?.answers.iter().find_map(|r| match &r.rdata {
        RData::A(a) => Some(a.address),
        _ => None,
    })
}

#[test]
fn the_pipeline() {
    let mut dns = resolver(settings());

    let a = handle(&mut dns, &query("example.com", TYPE::A)).unwrap();
    assert_eq!(rcode(&a), 0);
    assert_eq!(&a[..2], &[0x42, 0x42]);
    assert_eq!(first_a(&a), Some(0x5db8d822));

    let a = handle(&mut dns, &query("x.ads.tracker.test", TYPE::A)).unwrap();
    assert_eq!(rcode(&a), 3, "blocked: NXDOMAIN");
    let a = handle(&mut dns, &query("ok.ads.tracker.test", TYPE::A)).unwrap();
    assert_eq!(rcode(&a), 0, "exception");

    let a = handle(&mut dns, &query("panel.ostp", TYPE::A)).unwrap();
    assert_eq!(first_a(&a), Some(0x0a010001));
    let a = handle(&mut dns, &query("other.ostp", TYPE::A)).unwrap();
    assert_eq!(rcode(&a), 3, ".ostp never goes upstream");

    let a = handle(&mut dns, &query("v16.tiktokcdn.com", TYPE::A)).unwrap();
    assert_eq!(rcode(&a), 3, "blocked service");
    let a = handle(&mut dns, &query(DOH_CANARY, TYPE::A)).unwrap();
    assert_eq!(rcode(&a), 3, "Firefox canary");

    let a = handle(&mut dns, &query("cdn.clean.test", TYPE::A)).unwrap();
    assert_eq!(rcode(&a), 3, "CNAME to a blocked name");

    let _ = handle(&mut dns, &query("example.com", TYPE::A)).unwrap();
    let st = dns.stats(at(10).now);
    assert_eq!(st.total, 9);
    assert_eq!(st.cached, 1);
    assert!(st.blocked >= 5);
    let log = dns.query_log(3, None);
    assert_eq!(log[0].outcome, Outcome::Cached);
    assert_eq!(dns.query_log(50, Some("tiktok")).len(), 1);
}

#[test]
fn null_ip_mode_and_explain() {
    let mut s = settings();
    s.blocking_mode = BlockingMode::NullIp;
    let mut dns = resolver(s);
    let a = handle(&mut dns, &query("blocked.test", TYPE::A)).unwrap();
    assert_eq!(first_a(&a), Some(0));
    let e = dns.explain("x.blocked.test");
    assert_eq!(e.outcome, Outcome::Blocked);
    assert_eq!(e.rule.as_deref(), Some("||blocked.test^"));
    assert_eq!(e.source.as_deref(), Some("user rules"));
    assert_eq!(dns.explain("panel.ostp").outcome, Outcome::Rewritten);
    assert_eq!(dns.explain("example.com").outcome, Outcome::Allowed);
}

#[test]
fn off_means_hands_off() {
    let mut dns = resolver(DnsSettings::default());
    assert!(handle(&mut dns, &query("example.com", TYPE::A)).is_none());
}

#[test]
fn connections_by_name() {
    let mut dns = resolver(settings());
    assert_eq!(resolve_host(&mut dns, "panel.ostp"), Ok(ip_of("10.1.0.1")));
    assert_eq!(resolve_host(&mut dns, "example.com"), Ok(ip_of("93.184.216.34")));
    assert!(resolve_host(&mut dns, "x.blocked.test").unwrap_err().contains("||blocked.test^"));
    assert_eq!(resolve_host(&mut dns, "1.2.3.4"), Ok(None));
    assert_eq!(dns.query_log(10, Some("blocked.test")).len(), 1);
}

#[test]
fn encrypted_dns_to_public_resolvers() {
    let dns = resolver(DnsSettings::default());
    assert!(!dns.is_dns_bypass("1.1.1.1:853"), "filter off: nothing refused");
    let dns = resolver(DnsSettings { enabled: true, ..Default::default() });
    assert!(dns.is_dns_bypass("1.1.1.1:853"));
    assert!(dns.is_dns_bypass("8.8.8.8:443"));
    assert!(dns.is_dns_bypass("[2001:4860:4860::8888]:443"));
    assert!(dns.is_dns_bypass("[::ffff:1.1.1.1]:443"));
    assert!(dns.is_dns_bypass("dns.example:853"));
    assert!(!dns.is_dns_bypass("93.184.216.34:443"));
    assert!(!dns.is_dns_bypass("1.1.1.1:80"));
    assert!(!dns.is_dns_bypass("example.com:443"));
    let dns = resolver(DnsSettings { enabled: true, block_doh_bypass: false, ..Default::default() });
    assert!(!dns.is_dns_bypass("8.8.8.8:443"));
}

#[test]
fn wildcard_rewrites() {
    assert!(rewrite_matches("*.lan", "nas.lan"));
    assert!(!rewrite_matches("*.lan", "lan"));
    assert!(!rewrite_matches("*.lan", "xlan"));
    assert!(rewrite_matches("panel.ostp", "panel.ostp"));
}

#[test]
fn cached_answers_carry_the_new_number_and_what_is_left_of_their_time() {
    let mut dns = resolver(settings());
    let me = ip_of("10.1.0.2").unwrap();
    let _ = handle(&mut dns, &query("example.com", TYPE::A)).unwrap();
    let mut again = query("example.com", TYPE::A);
    again[0] = 1;
    again[1] = 2;
    match dns.begin(&again, me, at(30), 7) {
        Step::Reply(Some(a)) => {
            assert_eq!(&a[..2], &[1, 2]);
            let p = Packet::parse(&a).unwrap();
            assert_eq!(p.answers[0].ttl, 10);
        }
        _ => panic!("expected the kept answer"),
    }
}

#[test]
fn failures_are_told_to_the_client() {
    let mut dns = resolver(settings());
    let me = ip_of("10.1.0.2").unwrap();
    match dns.begin(&query("example.com", TYPE::A), me, at(10), 7) {
        Step::Ask(p) => {
            let a = dns.finish(p, Err("timed out".to_string()), at(12)).unwrap();
            assert_eq!(rcode(&a), 2);
        }
        _ => panic!("expected a question to the upstream"),
    }
    assert_eq!(dns.stats(at(12).now).failed, 1);
}

#[test]
fn failed_lookups_of_an_alias_are_told_too() {
    let mut s = settings();
    s.safe_search = true;
    s.rewrites.push(Rewrite { domain: "old.test".into(), answer: "new.test".into() });
    let mut dns = resolver(s);
    let me = ip_of("10.1.0.2").unwrap();
    for name in ["www.google.com", "old.test"] {
        match dns.begin(&query(name, TYPE::A), me, at(10), 7) {
            Step::Ask(p) => {
                let a = dns.finish(p, Err("timed out".to_string()), at(12)).unwrap();
                assert_eq!(rcode(&a), 2, "{}", name);
                assert_eq!(&a[..2], &[0x42, 0x42]);
                assert_eq!(first_a(&a), None);
            }
            _ => panic!("expected a question to the upstream"),
        }
    }
}

#[test]
fn hosts_are_looked_up_in_both_families() {
    let asked = |replies: &Vec<Option<Vec<u8>>>| match host_lookup("example.com", replies, 11) {
        HostLookup::Ask(q) => q,
        _ => panic!("expected a query"),
    };
    let four = asked(&Vec::new());
    assert_eq!(Packet::parse(&four).unwrap().questions[0].qtype, QTYPE::TYPE(TYPE::A));
    let q = Packet::parse(&four).unwrap();
    let mut none = Packet::new_reply(q.id());
    none.questions = q.questions.clone();
    let none = none.build_bytes_vec().unwrap();
    let six = asked(&vec![Some(none.clone())]);
    assert_eq!(Packet::parse(&six).unwrap().questions[0].qtype, QTYPE::TYPE(TYPE::AAAA));
    assert_eq!(Packet::parse(&six).unwrap().id(), 11);
    assert!(matches!(host_lookup("example.com", &vec![Some(none.clone()), Some(none.clone())], 11), HostLookup::ByName));
    assert!(matches!(host_lookup("example.com", &vec![None], 11), HostLookup::ByName));
    let found = host_lookup("example.com", &vec![Some(none), Some(upstream(&four))], 11);
    assert!(matches!(found, HostLookup::Found(ip) if ip == ip_of("93.184.216.34").unwrap()));
}

#[test]
fn safe_search_answers_with_an_alias() {
    let mut s = settings();
    s.safe_search = true;
    let mut dns = resolver(s);
    let a = handle(&mut dns, &query("www.google.com", TYPE::A)).unwrap();
    let p = Packet::parse(&a).unwrap();
    assert!(matches!(&p.answers[0].rdata, RData::CNAME(CNAME(n)) if n.to_string() == "forcesafesearch.google.com"));
    assert_eq!(first_a(&a), Some(0x5db8d822));
}

#[test]
fn answers_of_an_upstream_are_checked() {
    let q = [0xABu8, 0xCD, 1, 0, 0, 1, 0, 0, 0, 0, 0, 0, 0, 0, 1, 0, 1];
    let mut a = q.to_vec();
    a[2] |= 0x80;
    assert!(is_answer(&q, &a));
    assert!(!is_answer(&q, &[0xAB]));
    assert!(!is_answer(&q, &[0, 0, 0x80, 0, 0, 0, 0, 0, 0, 0, 0, 0]));
    assert!(!is_truncated(&a));
    a[2] |= 2;
    assert!(is_truncated(&a));
    assert!(is_whole(&a) && !is_whole(&a[..11]));
}

#[test]
fn types_have_names() {
    assert_eq!(qtype_name(28), "AAAA");
    assert_eq!(qtype_name(99), "TYPE99");
}

#[test]
fn a_cleared_log_is_empty() {
    let mut dns = resolver(settings());
    handle(&mut dns, &query("example.org", TYPE::A));
    assert_eq!(dns.stats(at(10).now).total, 1);
    dns.clear_log();
    assert_eq!(dns.stats(at(10).now).total, 0);
}
