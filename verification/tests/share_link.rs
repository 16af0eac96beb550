use base64::Engine;
use ostp::share_link::{LinkTransport, ShareLink};
use ostp::subscription::{token_for_key, Subscription, SubscriptionDoc, SubscriptionError, SubscriptionUsage};

#[test]
fn legacy_link_defaults_to_udp() {
    let l = ShareLink::parse("ostp://abc123@1.2.3.4:50000").unwrap();
    assert_eq!((l.key.as_str(), l.host.as_str(), l.port), ("abc123", "1.2.3.4", 50000));
    assert_eq!(l.transport, LinkTransport::Udp);
    assert!(!l.tls);
    assert_eq!(l.to_uri(), "ostp://abc123@1.2.3.4:50000?type=udp");
}

#[test]
fn full_tls_link_round_trips() {
    let uri = "ostp://k1@vpn.example.com:443?type=uot&tls=1&sni=cdn.example.com&insecure=1&path=%2Fs3cr3t&tun=true&dns=1.1.1.1&owndns=true&name=My%20VPN";
    let l = ShareLink::parse(uri).unwrap();
    assert_eq!(l.transport, LinkTransport::Uot);
    assert!(l.tls && l.insecure && l.tun && l.owndns);
    assert_eq!(l.sni.as_deref(), Some("cdn.example.com"));
    assert_eq!(l.path.as_deref(), Some("/s3cr3t"));
    assert_eq!(l.dns.as_deref(), Some("1.1.1.1"));
    assert_eq!(l.name.as_deref(), Some("My VPN"));
    assert_eq!(l.to_uri(), uri);
}

#[test]
fn tcp_and_http_types_mean_uot() {
    for t in ["tcp", "http", "uot", "UOT"] {
        let l = ShareLink::parse(&format!("ostp://k@h:1?type={t}")).unwrap();
        assert_eq!(l.transport, LinkTransport::Uot, "type={t}");
    }
}

#[test]
fn tls_or_path_without_type_forces_uot() {
    assert_eq!(ShareLink::parse("ostp://k@h:443?tls=true").unwrap().transport, LinkTransport::Uot);
    assert_eq!(ShareLink::parse("ostp://k@h:443?path=%2Fx").unwrap().transport, LinkTransport::Uot);
}

#[test]
fn ipv6_host_and_slash_before_query() {
    let l = ShareLink::parse("ostp://k@[2001:db8::1]:50000/?type=udp").unwrap();
    assert_eq!(l.host, "2001:db8::1");
    assert_eq!(l.server(), "[2001:db8::1]:50000");
    assert_eq!(l.to_uri(), "ostp://k@[2001:db8::1]:50000?type=udp");
}

#[test]
fn plus_in_query_is_a_space() {
    assert_eq!(ShareLink::parse("ostp://k@h:1?name=My+VPN").unwrap().name.as_deref(), Some("My VPN"));
}

#[test]
fn rejects_malformed_links() {
    for bad in [
        "https://k@h:1",
        "ostp://h:1",
        "ostp://@h:1",
        "ostp://k@h",
        "ostp://k@:1",
        "ostp://k@h:99999",
        "ostp://k@[::1",
    ] {
        assert!(ShareLink::parse(bad).is_err(), "{bad} should not parse");
    }
}

#[test]
fn awkward_texts_survive_a_link() {
    let mut l = ShareLink::new("k/ey@?&".to_string(), "example.org".to_string(), 7);
    l.name = Some("Привет + 100% #1".to_string());
    let r = ShareLink::parse(&l.to_uri()).unwrap();
    assert_eq!(r.key, "k/ey@?&");
    assert_eq!(r.name.as_deref(), Some("Привет + 100% #1"));
}

#[test]
fn token_is_stable_hex_and_hides_the_key() {
    let t = token_for_key("0123456789abcdef");
    assert_eq!(t.len(), 32);
    assert!(t.chars().all(|c| c.is_ascii_hexdigit()));
    assert_eq!(t, token_for_key("0123456789abcdef"));
    assert_ne!(t, token_for_key("0123456789abcdeg"));
    assert!(!t.contains("0123456789abcdef"));
}

#[test]
fn parses_json_plain_and_base64_forms() {
    let doc = SubscriptionDoc {
        name: "vpn".into(),
        update_interval_hours: 6,
        links: vec![
            "ostp://k@vpn.example.com:443?type=uot&tls=1".into(),
            "ostp://k@vpn.example.com:50000?type=udp".into(),
        ],
        usage: Some(SubscriptionUsage { used_bytes: 10, limit_bytes: Some(100) }),
    };
    let json = format!("{{\"name\":\"vpn\",\"update_interval_hours\":6,\"links\":[\"{}\",\"{}\"]}}", doc.links[0], doc.links[1]);
    match SubscriptionDoc::parse(&json).unwrap() {
        Subscription::Json(t) => {
            let v: serde_json::Value = serde_json::from_str(&t).unwrap();
            assert_eq!(v.get("links").unwrap().as_array().unwrap().len(), 2);
        }
        _ => panic!("expected a JSON document"),
    }

    let plain = doc.links.join("\n");
    match SubscriptionDoc::parse(&plain).unwrap() {
        Subscription::List(d) => assert_eq!(d.links, doc.links),
        _ => panic!("expected a list"),
    }

    let b64 = base64::engine::general_purpose::STANDARD.encode(plain.as_bytes());
    match SubscriptionDoc::parse(&b64).unwrap() {
        Subscription::List(d) => assert_eq!(d.links, doc.links),
        _ => panic!("expected a list"),
    }

    assert!(SubscriptionDoc::parse("<html>404</html>").is_err());
    assert_eq!(doc.valid_links().len(), 2);
}

#[test]
fn encoded_bytes_that_are_no_text_are_refused() {
    let b64 = base64::engine::general_purpose::STANDARD.encode([0xffu8, 0xfe, 0xfd]);
    assert_eq!(SubscriptionDoc::parse(&b64).unwrap_err(), SubscriptionError::NotText);
    assert_eq!(SubscriptionDoc::parse("nothing here").unwrap_err(), SubscriptionError::NoLinks);
}

#[test]
fn links_keep_their_inner_white_space() {
    let links = vec!["ostp://k@vpn.example.com:443#my phone".to_string(), "ostp://k@vpn.example.com:80#a\tb".to_string()];
    for text in [links.join("\n"), format!("{}\n", links.join("\n"))] {
        let b64 = base64::engine::general_purpose::STANDARD.encode(text.as_bytes());
        for form in [text.clone(), b64] {
            match SubscriptionDoc::parse(&form).unwrap() {
                Subscription::List(d) => assert_eq!(d.links, links),
                _ => panic!("expected a list"),
            }
        }
    }
}
