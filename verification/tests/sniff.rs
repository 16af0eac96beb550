use ostp::http_upgrade::{build_upgrade_request, MAX_HEAD_BYTES};
use ostp::net::{ip_of, socket_of, SocketAddr};
use ostp::server::fallback::{FallbackConfig, Rewind};
use ostp::server::limiter::ConnLimiter;
use ostp::server::sniff::{
    accept_connection, classify, frame_packet, parse_upgrade, request_path, split_packets, upgrade_problem, Class, ConnAction, Decoy, PanelRoute, Site,
    MAX_PENDING,
};
use ostp::server::startup::key_table;
use ostp::server::users::Users;
use ostp::time::{Clock, Instant};

fn public() -> SocketAddr {
    socket_of("203.0.113.7:4000").unwrap()
}

fn local() -> SocketAddr {
    socket_of("127.0.0.1:4000").unwrap()
}

fn site(ws_path: Option<&str>) -> Site {
    Site {
        tls: false,
        tls_required: false,
        panel: None,
        ws_path: ws_path.map(str::to_string),
        subscription: None,
        decoy: Decoy::NotFound,
    }
}

fn route(site: &Site, buf: &[u8], via_tls: bool) -> ConnAction {
    let now = Instant { nanos: 1_000_000_000 };
    let mut limiter = ConnLimiter::new_at(Clock::start(), now);
    let users = Users::new(key_table(vec![]), 0);
    site.route_http(buf, public(), via_tls, &mut limiter, now, &users)
}

#[test]
fn classification_table() {
    for b in 0x00..=0x05u8 {
        assert_eq!(classify(b), Class::Uot);
    }
    assert_eq!(classify(0x16), Class::Tls);
    assert_eq!(classify(b'G'), Class::Http);
    assert_eq!(classify(b'C'), Class::Http);
    assert_eq!(classify(0x06), Class::Legacy);
    assert_eq!(classify(0xff), Class::Legacy);
    assert_eq!(classify(b'g'), Class::Legacy);
}

#[test]
fn accepts_exact_upgrade_on_secret_path() {
    let req = build_upgrade_request("/s3cr3t", "vpn.example.com", "dGhlIHNhbXBsZSBub25jZQ==");
    let up = parse_upgrade(&req, Some("/s3cr3t"), public()).expect("valid upgrade");
    assert_eq!(up.ws_key, "dGhlIHNhbXBsZSBub25jZQ==");
    assert_eq!(up.forwarded_for, None);
}

#[test]
fn rejects_wrong_path_missing_headers_or_no_ws_path() {
    let req = build_upgrade_request("/s3cr3t", "h", "k");
    assert!(parse_upgrade(&req, Some("/other"), public()).is_none());
    assert!(parse_upgrade(&req, Some("/s3cr3t/"), public()).is_none());
    assert!(parse_upgrade(&req, None, public()).is_none());

    let no_key = b"GET /s3cr3t HTTP/1.1\r\nHost: h\r\nUpgrade: websocket\r\nConnection: Upgrade\r\n\r\n";
    assert!(parse_upgrade(no_key, Some("/s3cr3t"), public()).is_none());
    let plain = b"GET /s3cr3t HTTP/1.1\r\nHost: h\r\n\r\n";
    assert!(parse_upgrade(plain, Some("/s3cr3t"), public()).is_none());
    let post = b"POST /s3cr3t HTTP/1.1\r\nUpgrade: websocket\r\nConnection: Upgrade\r\nSec-WebSocket-Key: k\r\n\r\n";
    assert!(parse_upgrade(post, Some("/s3cr3t"), public()).is_none());
}

#[test]
fn upgrade_problems_are_named_for_the_log() {
    let ok = build_upgrade_request("/p", "h", "k");
    assert_eq!(upgrade_problem(&ok, Some("/p")), None);
    assert!(upgrade_problem(&ok, Some("/q")).unwrap().contains("different path"));
    assert!(upgrade_problem(b"GET /x HTTP/1.1\r\nHost: h\r\n\r\n", Some("/p")).is_none());
    let no_conn = b"GET /p HTTP/1.1\r\nUpgrade: websocket\r\nSec-WebSocket-Key: k\r\n\r\n";
    assert!(upgrade_problem(no_conn, Some("/p")).unwrap().contains("Connection"));
    assert!(upgrade_problem(&ok, None).unwrap().contains("ws_path"));
}

#[test]
fn header_names_and_connection_tokens_are_case_insensitive() {
    let req = b"GET /p HTTP/1.1\r\nupgrade: WebSocket\r\nconnection: keep-alive, Upgrade\r\nsec-websocket-key: k\r\n\r\n";
    assert!(parse_upgrade(req, Some("/p"), public()).is_some());
}

#[test]
fn forwarded_address_is_trusted_only_from_loopback() {
    let req = b"GET /p HTTP/1.1\r\nUpgrade: websocket\r\nConnection: Upgrade\r\nSec-WebSocket-Key: k\r\nX-Forwarded-For: 10.0.0.1, 198.51.100.4\r\n\r\n";
    assert_eq!(parse_upgrade(req, Some("/p"), local()).unwrap().forwarded_for, ip_of("198.51.100.4"));
    assert_eq!(parse_upgrade(req, Some("/p"), public()).unwrap().forwarded_for, None);

    let real = b"GET /p HTTP/1.1\r\nUpgrade: websocket\r\nConnection: Upgrade\r\nSec-WebSocket-Key: k\r\nX-Real-IP: 192.0.2.9\r\nX-Forwarded-For: 198.51.100.4\r\n\r\n";
    assert_eq!(parse_upgrade(real, Some("/p"), local()).unwrap().forwarded_for, ip_of("192.0.2.9"));
}

#[test]
fn raw_uot_frames_reach_the_dispatcher() {
    match site(None).greet(&[0x00, 0x03, b'a', b'b', b'c'], false) {
        ConnAction::Frames { first } => {
            let (frames, at) = split_packets(&first);
            assert_eq!(frames, vec![b"abc".to_vec()]);
            assert_eq!(at, 5);
        }
        _ => panic!("expected frames"),
    }
}

#[test]
fn upgrade_then_frames_pipelined_in_the_same_write() {
    let mut req = build_upgrade_request("/s3cr3t", "h", "dGhlIHNhbXBsZSBub25jZQ==");
    req.extend_from_slice(&[0x00, 0x02, b'h', b'i']);
    let s = site(Some("/s3cr3t"));
    assert!(matches!(s.greet(&req, false), ConnAction::Http));
    match route(&s, &req, false) {
        ConnAction::Upgrade { response, first } => {
            let resp = String::from_utf8_lossy(&response).into_owned();
            assert!(resp.starts_with("HTTP/1.1 101 "), "{resp}");
            assert!(resp.contains("Sec-WebSocket-Accept: s3pPLMBiTxaQ9kYGzzhZRbK+xOo="), "{resp}");
            assert_eq!(split_packets(&first).0, vec![b"hi".to_vec()]);
        }
        _ => panic!("expected an upgrade"),
    }
}

#[test]
fn wrong_path_gets_a_plain_404_and_never_reaches_the_dispatcher() {
    match route(&site(Some("/s3cr3t")), &build_upgrade_request("/guess", "h", "k"), false) {
        ConnAction::Reply { bytes } => assert!(bytes.starts_with(b"HTTP/1.1 404 Not Found")),
        _ => panic!("expected the decoy"),
    }
}

#[test]
fn oversized_head_gets_the_decoy() {
    let mut req = b"GET /p HTTP/1.1\r\nX: ".to_vec();
    req.extend(vec![b'a'; MAX_HEAD_BYTES]);
    match route(&site(Some("/p")), &req, false) {
        ConnAction::Reply { bytes } => assert!(bytes.starts_with(b"HTTP/1.1 404 Not Found")),
        _ => panic!("expected the decoy"),
    }
}

#[test]
fn slow_head_is_dropped_at_the_deadline() {
    assert!(matches!(route(&site(Some("/p")), b"GET /p HTTP/1.1\r\n", false), ConnAction::ReadMore));
}

#[test]
fn uot_frames_inside_tls_reach_the_dispatcher() {
    let mut s = site(None);
    s.tls = true;
    assert!(matches!(s.greet(&[0x16, 3, 1], false), ConnAction::EndTls));
    match s.greet(&[0x00, 0x03, b'a', b'b', b'c'], true) {
        ConnAction::Frames { first } => assert_eq!(split_packets(&first).0, vec![b"abc".to_vec()]),
        _ => panic!("expected frames"),
    }
}

#[test]
fn upgrade_inside_tls_then_frames() {
    let mut s = site(Some("/s3cr3t"));
    s.tls = true;
    let req = build_upgrade_request("/s3cr3t", "vpn.example.test", "dGhlIHNhbXBsZSBub25jZQ==");
    match route(&s, &req, true) {
        ConnAction::Upgrade { response, first } => {
            assert!(response.starts_with(b"HTTP/1.1 101 "));
            assert!(first.is_empty());
        }
        _ => panic!("expected an upgrade"),
    }
}

#[test]
fn builtin_https_proxies_panel_and_refuses_plaintext() {
    let mut s = site(Some("/s3cr3t"));
    s.tls = true;
    s.tls_required = true;
    s.panel = Some(PanelRoute { prefix: "/panel".into(), upstream: "127.0.0.1:9090".into() });
    let req = b"GET /panel/api/server/status HTTP/1.1\r\nHost: vpn.example.test\r\n\r\n";
    match route(&s, req, true) {
        ConnAction::Splice { target, first } => {
            assert_eq!(target, "127.0.0.1:9090");
            assert!(first.starts_with(b"GET /panel/api/server/status "));
        }
        _ => panic!("expected the panel"),
    }
    assert!(matches!(s.greet(&[0x00, 0x02, b'n', b'o'], false), ConnAction::Close));
}

#[test]
fn panel_prefix_matching() {
    let p = PanelRoute { prefix: "/wp".into(), upstream: String::new() };
    assert!(p.matches("/wp"));
    assert!(p.matches("/wp/x"));
    assert!(!p.matches("/wpx"));
    assert!(!p.matches("/"));
}

#[test]
fn strangers_go_to_the_fallback() {
    let mut s = site(None);
    s.decoy = Decoy::Proxy("127.0.0.1:8080".into());
    let req = b"GET / HTTP/1.1\r\nHost: x\r\n\r\n";
    match route(&s, req, false) {
        ConnAction::Splice { target, first } => {
            assert_eq!(target, "127.0.0.1:8080");
            assert_eq!(first, req.to_vec());
        }
        _ => panic!("expected the fallback"),
    }
    assert_eq!(request_path(req).as_deref(), Some("/"));
}

#[test]
fn one_address_opens_only_so_many_connections() {
    let now = Instant { nanos: 1_000_000_000 };
    let mut limiter = ConnLimiter::new_at(Clock::start(), now);
    let mut opened = 0;
    for _ in 0..30 {
        if accept_connection(&mut limiter, public(), 0, now) {
            opened += 1;
        }
        assert!(accept_connection(&mut limiter, local(), 0, now), "a local web server is not limited");
    }
    assert_eq!(opened, 10);
    assert!(!accept_connection(&mut limiter, local(), MAX_PENDING, now));
}

#[test]
fn clients_behind_a_web_server_are_limited_apart() {
    let s = site(Some("/p"));
    let now = Instant { nanos: 1_000_000_000 };
    let mut limiter = ConnLimiter::new_at(Clock::start(), now);
    let users = Users::new(key_table(vec![]), 0);
    let req = b"GET /p HTTP/1.1\r\nUpgrade: websocket\r\nConnection: Upgrade\r\nSec-WebSocket-Key: k\r\nX-Real-IP: 192.0.2.9\r\n\r\n";
    let mut opened = 0;
    for _ in 0..30 {
        match s.route_http(req, local(), false, &mut limiter, now, &users) {
            ConnAction::Upgrade { .. } => opened += 1,
            ConnAction::Reply { bytes } => assert!(bytes.starts_with(b"HTTP/1.1 429 ")),
            _ => panic!("expected an upgrade or a refusal"),
        }
    }
    assert_eq!(opened, 10);
}

#[test]
fn frames_of_a_stream_round_trip() {
    let mut bytes = frame_packet(b"one");
    bytes.extend(frame_packet(b""));
    bytes.extend(frame_packet(b"three"));
    bytes.extend([0, 9, 1]);
    let (frames, at) = split_packets(&bytes);
    assert_eq!(frames, vec![b"one".to_vec(), b"".to_vec(), b"three".to_vec()]);
    assert_eq!(at, bytes.len() - 3);
}

#[test]
fn prefix_reaches_target_before_the_rest_of_the_stream() {
    let c = FallbackConfig { enabled: true, listen: "0.0.0.0:80".into(), target: "127.0.0.1:8080".into() };
    assert_eq!(c.listener(), Some(("0.0.0.0:80", "127.0.0.1:8080")));
    let mut r = Rewind::new(b"GET ");
    assert_eq!(r.read(64), Some(b"GET ".to_vec()));
    assert_eq!(r.read(64), None);
}

#[test]
fn replays_prefix_then_inner_and_passes_writes_through() {
    let mut r = Rewind::new(b"hello ");
    let mut out = r.read(4).unwrap();
    out.extend(r.read(7).unwrap());
    assert_eq!(r.read(5), None);
    out.extend_from_slice(b"world");
    assert_eq!(&out, b"hello world");
}
