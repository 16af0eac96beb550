use ostp::congestion::CongestionController;
use ostp::time::{Clock, Duration, Instant};

#[test]
fn test_initial_state() {
    let cc = CongestionController::new(1200);
    assert_eq!(cc.cwnd(), 12000);
    assert!(cc.can_send());
    assert_eq!(cc.cwnd_packets(), 10);
}

#[test]
fn test_slow_start_growth() {
    let mut cc = CongestionController::new(1200);
    cc.on_send(1200);
    cc.on_ack(1200, Duration::from_millis(50));
    assert!(cc.cwnd() > 12000);
}

#[test]
fn test_loss_reduces_cwnd() {
    let mut cc = CongestionController::new(1200);
    let initial = cc.cwnd();
    cc.on_loss(1200);
    assert!(cc.cwnd() < initial);
}

#[test]
fn test_can_send_limits() {
    let mut cc = CongestionController::new(1200);
    for _ in 0..10 {
        cc.on_send(1200);
    }
    assert!(!cc.can_send());
}

#[test]
fn test_retransmit_budget() {
    let cc = CongestionController::new(1200);
    let budget = cc.retransmit_budget();
    assert!(budget >= 2);
    assert!(budget <= 64);
}

#[test]
fn test_rtt_tracking() {
    let mut cc = CongestionController::new(1200);
    cc.on_send(1200);
    cc.on_ack(1200, Duration::from_millis(25));
    assert_eq!(cc.smoothed_rtt(), Duration::from_millis(25));
}

#[test]
fn slow_start_adds_what_is_acknowledged() {
    let now = Instant { nanos: 1_000_000_000 };
    let mut cc = CongestionController::new_at(1200, Clock::start(), now);
    cc.on_send(1200);
    cc.on_ack_at(1200, Some(Duration::from_millis(50)), now);
    assert_eq!(cc.cwnd(), 13200);
    assert_eq!(cc.available_cwnd(), 13200);
}

#[test]
fn the_window_keeps_two_packets() {
    let mut cc = CongestionController::new(1200);
    for _ in 0..100 {
        cc.on_loss(1200);
    }
    assert!(cc.cwnd() >= 2400);
    assert!(cc.cwnd_packets() >= 2);
}

#[test]
fn the_timeout_has_a_ceiling() {
    let mut cc = CongestionController::new(1200);
    cc.on_send(1200);
    cc.on_ack(1200, Duration::from_secs(100));
    assert_eq!(cc.rto(), Duration::from_secs(16));
}

#[test]
fn acknowledgements_without_a_time_leave_the_estimate() {
    let mut cc = CongestionController::new(1200);
    let before = cc.smoothed_rtt();
    cc.on_send(1200);
    cc.on_ack_no_rtt(1200);
    assert_eq!(cc.smoothed_rtt(), before);
    assert_eq!(cc.cwnd(), 13200);
}

#[test]
fn the_estimate_follows_the_least_round_trip() {
    let start = Instant { nanos: 1_000_000_000 };
    let mut cc = CongestionController::new_at(1200, Clock::start(), start);
    for ms in [80u64, 30, 60] {
        cc.on_send(1200);
        cc.on_ack_at(1200, Some(Duration::from_millis(ms)), start);
    }
    assert_eq!(cc.smoothed_rtt(), Duration::from_millis(30));
    let late = start.plus(Duration::from_secs(10));
    cc.on_ack_at(0, Some(Duration::from_millis(60)), late);
    assert_eq!(cc.smoothed_rtt(), Duration::from_millis(60));
}

#[test]
fn losses_slow_the_pace() {
    let start = Instant { nanos: 1_000_000_000 };
    let mut cc = CongestionController::new_at(1200, Clock::start(), start);
    cc.on_loss(1200);
    assert_eq!(cc.cwnd(), 6000);
    assert_eq!(cc.smoothed_rtt(), Duration::from_millis(100));
    assert_eq!(cc.pacing_rate(), 60_000);
    cc.on_loss(1200);
    assert_eq!(cc.cwnd(), 4200);
    assert_eq!(cc.pacing_rate(), 42_000);
}
