use ostp::net::{ip_of, socket_of, IpAddr, SocketAddr};
use ostp::server::limiter::{is_trusted_proxy, ConnLimiter, MAX_CONNS, PRUNE_EVERY_NANOS, WINDOW_NANOS};
use ostp::server::relay_node::{upstream_bind, AdmissionLimiter, RelayStep, TcpRelay, UdpRelay, MAX_TCP_CONNECTIONS, NEW_SESSION_RATE};
use ostp::time::{Clock, Duration, Instant};

fn ip(s: &str) -> IpAddr {
    ip_of(s).unwrap()
}

fn socket(s: &str) -> SocketAddr {
    socket_of(s).unwrap()
}

fn t0() -> Instant {
    Instant { nanos: 1_000_000_000_000 }
}

#[test]
fn admission_limiter_stops_at_the_burst_ceiling() {
    let mut limiter = AdmissionLimiter::new_at(Clock::start(), t0());
    let mut admitted = 0usize;
    for _ in 0..(NEW_SESSION_RATE as usize * 3) {
        if limiter.try_admit_at(t0()) {
            admitted += 1;
        }
    }
    assert!(
        admitted <= NEW_SESSION_RATE as usize + 1,
        "admitted {admitted} sessions in one instant, ceiling is {NEW_SESSION_RATE}"
    );
    assert!(admitted > 0, "limiter admitted nothing at all");
}

#[test]
fn admission_limiter_refills_over_time() {
    let mut limiter = AdmissionLimiter::new_at(Clock::start(), t0());
    while limiter.try_admit_at(t0()) {}
    assert!(!limiter.try_admit_at(t0()), "bucket should be empty");
    assert!(
        limiter.try_admit_at(t0().plus(Duration::from_millis(50))),
        "limiter never refilled; the relay would stop accepting new clients"
    );
}

#[test]
fn udp_relay_forwards_both_directions() {
    let mut relay = UdpRelay::new(Clock::start(), t0());
    let client = socket("198.51.100.1:4000");
    assert!(matches!(relay.on_datagram(client, t0()), RelayStep::Open));
    relay.on_opened(client, t0());
    assert_eq!(relay.len(), 1);
    assert!(matches!(relay.on_datagram(client, t0()), RelayStep::Forward));
    relay.on_reply(client, t0().plus(Duration::from_secs(100)));
    assert_eq!(relay.reclaim(t0().plus(Duration::from_secs(200))), 0, "a reply keeps the session");
    assert_eq!(relay.reclaim(t0().plus(Duration::from_secs(400))), 1);
    assert_eq!(relay.len(), 0);
}

#[test]
fn tcp_relay_splices_both_directions() {
    let mut relay = TcpRelay::new();
    for _ in 0..MAX_TCP_CONNECTIONS {
        assert!(relay.on_accept());
    }
    assert!(!relay.on_accept());
    relay.on_closed();
    assert!(relay.on_accept());
    assert_eq!(upstream_bind(socket("1.2.3.4:5")), socket("0.0.0.0:0"));
    assert_eq!(upstream_bind(socket("[::1]:5")), socket("[::]:0"));
}

#[test]
fn blocks_after_budget_and_resets_after_window() {
    let mut l = ConnLimiter::new_at(Clock::start(), t0());
    for _ in 0..MAX_CONNS {
        assert!(l.check_at(ip("203.0.113.1"), t0()));
    }
    assert!(!l.check_at(ip("203.0.113.1"), t0()));
    assert!(l.check_at(ip("203.0.113.2"), t0()), "other clients are unaffected");
    assert!(l.check_at(ip("203.0.113.1"), t0().plus(Duration::from_nanos(WINDOW_NANOS))));
}

#[test]
fn stale_windows_are_pruned() {
    let mut l = ConnLimiter::new_at(Clock::start(), t0());
    for i in 0..100u32 {
        l.check_at(IpAddr::V4(0xc633_6400 + i), t0());
    }
    assert_eq!(l.len(), 100);
    l.check_at(ip("192.0.2.1"), t0().plus(Duration::from_nanos(PRUNE_EVERY_NANOS)));
    assert_eq!(l.len(), 1);
}

#[test]
fn mapped_v4_and_v4_share_a_window() {
    let mut l = ConnLimiter::new();
    for _ in 0..MAX_CONNS {
        assert!(l.check(ip("203.0.113.9")));
    }
    assert!(!l.check(ip("::ffff:203.0.113.9")));
}

#[test]
fn loopback_is_trusted_proxy() {
    assert!(is_trusted_proxy(socket("127.0.0.1:1")));
    assert!(is_trusted_proxy(socket("[::1]:1")));
    assert!(is_trusted_proxy(socket("[::ffff:127.0.0.1]:1")));
    assert!(!is_trusted_proxy(socket("203.0.113.1:1")));
}

#[test]
fn a_new_limiter_admits() {
    assert!(AdmissionLimiter::new_at(Clock::start(), Clock::start().now()).try_admit());
}
