use ostp::net::{ip_of, socket_of, IpAddr, SocketAddr};
use ostp::server::dns::{framed_answer, proxy_url, query_length};
use ostp::server::outbound::{
    match_domain_rule, parse_cidr, prefer_ipv4_first, route_datagram, route_target, route_udp_target, select_outbound_action, split_host_port,
    wants_udp_proxy, OutboundAction, OutboundConfig, OutboundRule, Route, UdpRoute,
};
use ostp::server::router::{first_step, name_to_resolve, own_target, resolved_target, TcpStep};
use ostp::server::socks5::{
    http_connect, is_grant, socks5_accepted, socks5_connect, socks5_credentials, socks5_datagram, socks5_greeting, socks5_method,
    socks5_parse_datagram, socks5_reply, socks5_skip, ReplyAddress, Socks5Error,
};

fn ip(s: &str) -> IpAddr {
    ip_of(s).unwrap()
}

fn socket(s: &str) -> SocketAddr {
    socket_of(s).unwrap()
}

fn proxy(protocol: &str) -> OutboundConfig {
    OutboundConfig {
        enabled: true,
        protocol: protocol.into(),
        address: "127.0.0.1".into(),
        port: 1,
        username: String::new(),
        password: String::new(),
        rules: Vec::new(),
        default_action: OutboundAction::Proxy,
    }
}

#[test]
fn test_split_host_port() {
    assert_eq!(split_host_port("example.com:443"), Some(("example.com".to_string(), 443)));
    assert_eq!(split_host_port("127.0.0.1:80"), Some(("127.0.0.1".to_string(), 80)));
    assert_eq!(split_host_port("[::1]:8080"), Some(("::1".to_string(), 8080)));
    assert_eq!(split_host_port("noport"), None);
    assert_eq!(split_host_port("::1:8080"), None);
}

#[test]
fn test_parse_cidr_v4() {
    let cidr = parse_cidr("10.0.0.0/8").unwrap();
    assert!(cidr.contains(&ip("10.1.2.3")));
    assert!(cidr.contains(&ip("10.255.255.255")));
    assert!(!cidr.contains(&ip("11.0.0.1")));
}

#[test]
fn test_parse_cidr_v4_exact() {
    let cidr = parse_cidr("192.168.1.1").unwrap();
    assert!(cidr.contains(&ip("192.168.1.1")));
    assert!(!cidr.contains(&ip("192.168.1.2")));
}

#[test]
fn test_parse_cidr_v6() {
    let cidr = parse_cidr("::1/128").unwrap();
    assert!(cidr.contains(&ip("::1")));
    assert!(!cidr.contains(&ip("::2")));
}

#[test]
fn test_parse_cidr_invalid() {
    assert!(parse_cidr("").is_none());
    assert!(parse_cidr("not-an-ip/24").is_none());
}

#[test]
fn test_match_domain_rule() {
    assert!(match_domain_rule("example.com", &[".example.com".to_string()]));
    assert!(match_domain_rule("sub.example.com", &[".example.com".to_string()]));
    assert!(!match_domain_rule("notexample.com", &[".example.com".to_string()]));
    assert!(match_domain_rule("test.onion", &[".onion".to_string()]));
    assert!(!match_domain_rule("onion.com", &[".onion".to_string()]));
}

#[test]
fn test_match_domain_rule_exact() {
    assert!(match_domain_rule("example.com", &["example.com".to_string()]));
    assert!(match_domain_rule("sub.example.com", &["example.com".to_string()]));
}

#[test]
fn domain_rules_do_not_heed_case() {
    assert!(match_domain_rule("WWW.Example.COM..", &[" .eXample.com ".to_string()]));
    assert!(!match_domain_rule("Example.COM", &["www.example.com".to_string()]));
    assert!(match_domain_rule("ПРИМЕР.рф", &["пример.РФ".to_string()]));
}

#[test]
fn test_match_domain_rule_empty() {
    assert!(!match_domain_rule("example.com", &[]));
}

#[test]
fn test_prefer_ipv4_first_reorders_mixed_list() {
    let v6 = socket("[2001:db8::1]:443");
    let v4 = socket("192.0.2.1:443");
    assert_eq!(prefer_ipv4_first(&vec![v6, v4]), vec![v4, v6], "IPv4 candidate must sort before IPv6");
}

#[test]
fn test_prefer_ipv4_first_preserves_order_within_family() {
    let a = socket("192.0.2.1:443");
    let b = socket("192.0.2.2:443");
    assert_eq!(prefer_ipv4_first(&vec![a, b]), vec![a, b]);
}

#[test]
fn the_server_itself_bypasses_outbound_and_bind_ip() {
    let outbound = Some(proxy("socks5"));
    let bind = Some("192.0.2.1".to_string());
    assert_eq!(own_target("127.0.0.1:8080"), Some(socket("127.0.0.1:8080")));
    assert_eq!(own_target("10.1.0.1:8080"), Some(socket("127.0.0.1:8080")));
    assert_eq!(own_target("198.51.100.7:80"), None);
    assert!(matches!(route_target("198.51.100.7:80", &outbound, &bind), Route::Socks5 { .. }));
}

#[test]
fn the_first_rule_that_applies_decides() {
    let mut c = proxy("socks5");
    let rule = |suffix: &str, action: OutboundAction| OutboundRule {
        domain_suffix: vec![suffix.to_string()],
        ip_cidr: vec![],
        protocol: None,
        action,
        send_from: None,
    };
    c.rules = vec![rule(".example.com", OutboundAction::Direct), rule("example.com", OutboundAction::Block)];
    assert_eq!(select_outbound_action("a.example.com:80", "tcp", &c).0, OutboundAction::Direct);
    assert_eq!(select_outbound_action("example.org:80", "tcp", &c).0, OutboundAction::Proxy);
    c.rules = vec![rule("example.com", OutboundAction::Block)];
    assert!(matches!(route_target("a.example.com:80", &Some(c), &None), Route::Blocked));
}

#[test]
fn unknown_proxies_are_not_used() {
    assert!(matches!(route_target("a:1", &Some(proxy("http")), &None), Route::Http { .. }));
    assert!(matches!(route_target("a:1", &Some(proxy("ftp")), &None), Route::Unsupported(ref p) if p == "ftp"));
    assert!(matches!(route_target("a:1", &None, &None), Route::Direct { bind: None }));
    assert!(wants_udp_proxy(&Some(proxy("socks5"))) && !wants_udp_proxy(&Some(proxy("http"))));
    assert_eq!(route_datagram("1.2.3.4:53", &Some(proxy("socks5")), true), UdpRoute::Proxy);
}

#[test]
fn names_are_resolved_where_they_may_be() {
    assert_eq!(name_to_resolve("example.com:443").as_deref(), Some("example.com"));
    assert_eq!(name_to_resolve("1.2.3.4:443"), None);
    assert_eq!(resolved_target("example.com:443", Some(ip("93.184.216.34")), false, false), "93.184.216.34:443");
    assert_eq!(resolved_target("example.com:443", Some(ip("93.184.216.34")), true, false), "example.com:443");
    assert_eq!(resolved_target("panel.ostp:443", Some(ip("10.1.0.1")), true, true), "127.0.0.1:443");
    assert_eq!(resolved_target("example.com:443", None, false, false), "example.com:443");
}

#[test]
fn the_resolver_goes_through_the_proxy() {
    assert_eq!(proxy_url(None), None);
    assert_eq!(proxy_url(Some(&proxy("socks5"))).as_deref(), Some("socks5h://127.0.0.1:1"));
    let mut c = proxy("http");
    c.username = "u".into();
    c.password = "p".into();
    assert_eq!(proxy_url(Some(&c)).as_deref(), Some("http://u:p@127.0.0.1:1"));
    c.enabled = false;
    assert_eq!(proxy_url(Some(&c)), None);
    assert_eq!(proxy_url(Some(&proxy("ftp"))), None);
    assert_eq!(proxy_url(Some(&proxy("SOCKS5"))).as_deref(), Some("socks5h://127.0.0.1:1"));
    assert_eq!(proxy_url(Some(&proxy("Http"))).as_deref(), Some("http://127.0.0.1:1"));
    assert!(wants_udp_proxy(&Some(proxy("SOCKS5"))));
}

#[test]
fn queries_over_tcp_are_framed() {
    assert_eq!(query_length(&[0, 0]), None);
    assert_eq!(query_length(&[1, 2]), Some(258));
    assert_eq!(framed_answer(b"abc"), vec![0, 3, b'a', b'b', b'c']);
}

#[test]
fn socks5_messages_are_exact() {
    assert_eq!(socks5_greeting("", "").unwrap(), vec![5, 1, 0]);
    assert_eq!(socks5_greeting("u", "p").unwrap(), vec![5, 2, 0, 2]);
    assert_eq!(socks5_greeting(&"u".repeat(256), "p").unwrap_err(), Socks5Error::CredentialsTooLong);
    assert_eq!(socks5_credentials("u", "pw"), vec![1, 1, b'u', 2, b'p', b'w']);
    assert_eq!(socks5_method(5, 0), Ok(false));
    assert_eq!(socks5_method(5, 2), Ok(true));
    assert_eq!(socks5_method(4, 0), Err(Socks5Error::Version(4)));
    assert_eq!(socks5_method(5, 0xff), Err(Socks5Error::NoMethod));
    assert_eq!(socks5_method(5, 7), Err(Socks5Error::Method(7)));
    assert_eq!(socks5_accepted(1), Err(Socks5Error::Rejected(1)));
    assert_eq!(socks5_connect("1.2.3.4:80").unwrap(), vec![5, 1, 0, 1, 1, 2, 3, 4, 0, 80]);
    assert_eq!(socks5_connect("a.b:80").unwrap(), vec![5, 1, 0, 3, 3, b'a', b'.', b'b', 0, 80]);
    assert_eq!(socks5_connect("nowhere").unwrap_err(), Socks5Error::InvalidTarget);
    assert_eq!(socks5_reply(0, 1), Ok(ReplyAddress::V4));
    assert_eq!(socks5_reply(5, 1), Err(Socks5Error::Refused(5)));
    assert_eq!(socks5_skip(ReplyAddress::V6, 0), 18);
    let d = socks5_datagram("1.2.3.4:53", b"hi").unwrap();
    assert_eq!(socks5_parse_datagram(&d), Some(("1.2.3.4:53".to_string(), b"hi".to_vec())));
    assert_eq!(socks5_parse_datagram(&d[..5]), None);
}

#[test]
fn http_proxies_are_asked_to_connect() {
    assert_eq!(http_connect("a:1"), "CONNECT a:1 HTTP/1.1\r\nHost: a:1\r\n\r\n");
    assert!(is_grant("HTTP/1.1 200 OK\r\n\r\n"));
    assert!(!is_grant("HTTP/1.1 407 Proxy Authentication Required\r\n\r\n"));
}

#[test]
fn queries_over_tcp_reach_the_own_resolver() {
    assert!(matches!(first_step("dns.google:443", true, true), TcpStep::Refuse));
    assert!(matches!(first_step("8.8.8.8:53", false, true), TcpStep::Dns));
    assert!(matches!(first_step("8.8.8.8:53", false, false), TcpStep::Go));
    assert!(matches!(first_step("example.org:443", false, true), TcpStep::Resolve(n) if n == "example.org"));
    assert!(matches!(first_step("[::1]:443", false, true), TcpStep::Go));
}

#[test]
fn udp_fails_closed_without_a_proxy_for_it() {
    assert!(matches!(
        route_udp_target("a:1", &Some(proxy("SOCKS5")), &None),
        Route::Socks5 { ref proxy, bind: None } if proxy == "127.0.0.1:1"
    ));
    assert!(matches!(route_udp_target("a:1", &Some(proxy("http")), &None), Route::Unsupported(ref p) if p == "http"));
    let off = OutboundConfig { enabled: false, ..proxy("http") };
    assert!(matches!(route_udp_target("a:1", &Some(off), &Some("192.0.2.1".into())), Route::Direct { bind: Some(ref b) } if b == "192.0.2.1"));
}
