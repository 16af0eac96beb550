//! Congestion control of one session: how much may be unacknowledged, how fast
//! it may go out, and how long to wait before sending it again.

use vstd::prelude::*;

use crate::time::{capped, Clock, Duration, Instant};

verus! {

/// What the window does on the next acknowledgement.
#[derive(Clone, Copy, Debug, PartialEq, Eq, Structural)]
pub enum Phase {
    /// Grows by what is acknowledged, until a loss or the threshold.
    SlowStart,
    /// Grows by about a packet per round trip.
    ProbeBandwidth,
    /// Held small to measure the round trip of an empty path.
    ProbeRtt,
}

/// Window of a new session, in packets.
pub const INITIAL_CWND_PACKETS: u64 = 10;

/// The window never shrinks below this many packets.
pub const MIN_CWND_PACKETS: u64 = 2;

/// The smallest round trip is measured anew after ten seconds.
pub const MIN_RTT_EXPIRY_NANOS: u64 = 10_000_000_000;

/// How long the window is held small to measure the round trip.
pub const PROBE_RTT_NANOS: u64 = 200_000_000;

/// Estimate of the round trip, and timeout, before there is a sample.
pub const INITIAL_RTT_NANOS: u64 = 100_000_000;

/// The retransmission timeout never exceeds sixteen seconds.
pub const RTO_MAX_NANOS: u64 = 16_000_000_000;

/// The state of a controller, over unbounded numbers. Sizes are in bytes,
/// times in nanoseconds.
#[verifier::ext_equal]
pub struct CcState {
    pub cwnd: int,
    pub ssthresh: int,
    pub phase: Phase,
    pub min_rtt: int,
    pub min_rtt_stamp: int,
    pub smoothed: Option<(int, int)>,
    pub max_bandwidth: int,
    pub in_flight: int,
    pub total_acked: int,
    pub last_ack: int,
    pub losses: int,
    pub pacing_rate: int,
    pub mtu: int,
    pub probe_since: Option<int>,
}

pub open spec fn larger(a: int, b: int) -> int {
    if a >= b {
        a
    } else {
        b
    }
}

pub open spec fn smaller(a: int, b: int) -> int {
    if a <= b {
        a
    } else {
        b
    }
}

/// `a - b`, but not below zero.
pub open spec fn less(a: int, b: int) -> int {
    larger(a - b, 0)
}

impl CcState {
    /// A new controller at time `now`.
    pub open spec fn initial(mtu: int, now: int) -> CcState {
        let cwnd = capped(INITIAL_CWND_PACKETS * mtu);
        CcState {
            cwnd,
            ssthresh: u64::MAX as int,
            phase: Phase::SlowStart,
            min_rtt: INITIAL_RTT_NANOS as int,
            min_rtt_stamp: now,
            smoothed: None,
            max_bandwidth: 0,
            in_flight: 0,
            total_acked: 0,
            last_ack: now,
            losses: 0,
            pacing_rate: capped(cwnd * 10),
            mtu,
            probe_since: None,
        }
    }

    /// The smallest window.
    pub open spec fn floor(self) -> int {
        capped(MIN_CWND_PACKETS * self.mtu)
    }

    /// A packet has a size, and the window is never below its floor.
    pub open spec fn wf(self) -> bool {
        &&& self.mtu > 0
        &&& self.floor() <= self.cwnd <= u64::MAX
        &&& 0 <= self.in_flight <= u64::MAX
        &&& 0 <= self.min_rtt
    }

    /// The window in packets.
    pub open spec fn packets(self) -> int {
        larger(self.cwnd / self.mtu, MIN_CWND_PACKETS as int)
    }

    /// Packets that may be sent again per tick: a quarter of the window,
    /// between 2 and 64.
    pub open spec fn budget(self) -> int {
        smaller(larger(self.packets() / 4, 2), 64)
    }

    /// The timeout: smoothed round trip and four times its variation, or the
    /// initial estimate before the first sample.
    pub open spec fn rto(self) -> int {
        match self.smoothed {
            Some((srtt, rttvar)) => smaller(srtt + 4 * rttvar, RTO_MAX_NANOS as int),
            None => INITIAL_RTT_NANOS as int,
        }
    }

    pub open spec fn sent(self, bytes: int) -> CcState {
        CcState { in_flight: capped(self.in_flight + bytes), ..self }
    }

    /// A round trip of `rtt`: the minimum is replaced by a smaller one or when
    /// it has expired; the smoothed value takes an eighth of it, the variation
    /// a quarter of the distance.
    pub open spec fn rtt_sample(self, rtt: int, now: int) -> CcState {
        let fresh = rtt < self.min_rtt || less(now, self.min_rtt_stamp) >= MIN_RTT_EXPIRY_NANOS;
        CcState {
            min_rtt: if fresh {
                rtt
            } else {
                self.min_rtt
            },
            min_rtt_stamp: if fresh {
                now
            } else {
                self.min_rtt_stamp
            },
            smoothed: match self.smoothed {
                Some((srtt, rttvar)) => Some(
                    (
                        (srtt * 7 + rtt) / 8,
                        (rttvar * 3 + if srtt >= rtt {
                            srtt - rtt
                        } else {
                            rtt - srtt
                        }) / 4,
                    ),
                ),
                None => Some((rtt, rtt / 2)),
            },
            ..self
        }
    }

    /// The rate since the last acknowledgement, where time has passed.
    pub open spec fn bandwidth_sample(self, bytes: int, now: int) -> CcState {
        let micros = less(now, self.last_ack) / 1000;
        if micros > 0 {
            CcState { max_bandwidth: larger(self.max_bandwidth, capped(bytes * 1_000_000 / micros)), ..self }
        } else {
            self
        }
    }

    /// The window after `bytes` were acknowledged at `now`.
    pub open spec fn grown(self, bytes: int, now: int) -> CcState {
        match self.phase {
            Phase::SlowStart => {
                let cwnd = capped(self.cwnd + bytes);
                CcState {
                    cwnd,
                    phase: if cwnd >= self.ssthresh {
                        Phase::ProbeBandwidth
                    } else {
                        Phase::SlowStart
                    },
                    ..self
                }
            },
            Phase::ProbeBandwidth => CcState {
                cwnd: capped(self.cwnd + bytes * self.mtu / larger(self.cwnd, 1)),
                ..self
            },
            Phase::ProbeRtt => {
                let small = capped(MIN_CWND_PACKETS * self.mtu * 2);
                match self.probe_since {
                    Some(t) if less(now, t) >= PROBE_RTT_NANOS => CcState {
                        cwnd: larger(capped(MIN_CWND_PACKETS * self.mtu * 4), small),
                        phase: Phase::ProbeBandwidth,
                        probe_since: None,
                        ..self
                    },
                    _ => CcState { cwnd: small, ..self },
                }
            },
        }
    }

    /// One window per smallest round trip.
    pub open spec fn paced(self) -> CcState {
        CcState { pacing_rate: capped(self.cwnd * 1_000_000 / larger(self.min_rtt / 1000, 1)), ..self }
    }

    /// `bytes` were acknowledged, with a round-trip sample or without one.
    pub open spec fn acked(self, bytes: int, rtt: Option<int>, now: int) -> CcState {
        let a = CcState {
            in_flight: less(self.in_flight, bytes),
            total_acked: capped(self.total_acked + bytes),
            ..self
        };
        let b = match rtt {
            Some(r) => a.rtt_sample(r, now),
            None => a,
        };
        CcState { last_ack: now, ..b.bandwidth_sample(bytes, now).grown(bytes, now).paced() }
    }

    /// `bytes` were lost: the window halves in slow start and shrinks to seven
    /// tenths after it, but not below the floor.
    pub open spec fn lost(self, bytes: int) -> CcState {
        let a = CcState {
            in_flight: less(self.in_flight, bytes),
            losses: if self.losses < u32::MAX {
                self.losses + 1
            } else {
                self.losses
            },
            ..self
        };
        match self.phase {
            Phase::SlowStart => CcState {
                ssthresh: self.cwnd / 2,
                cwnd: larger(self.cwnd / 2, self.floor()),
                phase: Phase::ProbeBandwidth,
                ..a
            }.paced(),
            Phase::ProbeBandwidth => CcState { cwnd: larger(self.cwnd * 7 / 10, self.floor()), ..a }.paced(),
            Phase::ProbeRtt => a.paced(),
        }
    }
}

/// Congestion control state of one session.
pub struct CongestionController {
    cwnd: u64,
    ssthresh: u64,
    phase: Phase,
    min_rtt: Duration,
    min_rtt_stamp: Instant,
    smoothed: Option<(u64, u64)>,
    max_bandwidth: u64,
    bytes_in_flight: u64,
    total_acked: u64,
    last_ack_time: Instant,
    loss_count: u32,
    pacing_rate: u64,
    mtu: u64,
    probe_rtt_timer: Option<Instant>,
    clock: Clock,
}

impl View for CongestionController {
    type V = CcState;

    closed spec fn view(&self) -> CcState {
        CcState {
            cwnd: self.cwnd as int,
            ssthresh: self.ssthresh as int,
            phase: self.phase,
            min_rtt: self.min_rtt.nanos as int,
            min_rtt_stamp: self.min_rtt_stamp.nanos as int,
            smoothed: match self.smoothed {
                Some((a, b)) => Some((a as int, b as int)),
                None => None,
            },
            max_bandwidth: self.max_bandwidth as int,
            in_flight: self.bytes_in_flight as int,
            total_acked: self.total_acked as int,
            last_ack: self.last_ack_time.nanos as int,
            losses: self.loss_count as int,
            pacing_rate: self.pacing_rate as int,
            mtu: self.mtu as int,
            probe_since: match self.probe_rtt_timer {
                Some(t) => Some(t.nanos as int),
                None => None,
            },
        }
    }
}

/// `a * b / c`, limited to what 64 bits hold.
fn mul_div_capped(a: u64, b: u64, c: u64) -> (r: u64)
    requires
        c > 0,
    ensures
        r == capped(a * b / (c as int)),
{
    assert(a * b <= u64::MAX * u64::MAX) by (nonlinear_arith)
        requires
            a <= u64::MAX,
            b <= u64::MAX,
    ;
    let q: u128 = (a as u128) * (b as u128) / (c as u128);
    if q > u64::MAX as u128 {
        u64::MAX
    } else {
        q as u64
    }
}

impl CongestionController {
    /// A packet has a size, and the window is never below its floor.
    pub open spec fn wf(&self) -> bool {
        self@.wf()
    }

    /// A controller for packets of `mtu` bytes, on a clock of its own.
    pub fn new(mtu: u64) -> (r: Self)
        requires
            mtu > 0,
        ensures
            r.wf(),
            exists|now: int| r@ == CcState::initial(mtu as int, now),
    {
        let clock = Clock::start();
        let now = clock.now();
        Self::new_at(mtu, clock, now)
    }

    /// A controller for packets of `mtu` bytes that starts at `now`.
    pub fn new_at(mtu: u64, clock: Clock, now: Instant) -> (r: Self)
        requires
            mtu > 0,
        ensures
            r.wf(),
            r@ == CcState::initial(mtu as int, now.nanos as int),
    {
        let initial_cwnd: u64 = crate::time::mul_capped(INITIAL_CWND_PACKETS, mtu);
        CongestionController {
            cwnd: initial_cwnd,
            ssthresh: u64::MAX,
            phase: Phase::SlowStart,
            min_rtt: Duration { nanos: INITIAL_RTT_NANOS },
            min_rtt_stamp: now,
            smoothed: None,
            max_bandwidth: 0,
            bytes_in_flight: 0,
            total_acked: 0,
            last_ack_time: now,
            loss_count: 0,
            pacing_rate: crate::time::mul_capped(initial_cwnd, 10),
            mtu,
            probe_rtt_timer: None,
            clock,
        }
    }

    /// The window in bytes.
    pub fn cwnd(&self) -> (r: u64)
        ensures
            r == self@.cwnd,
    {
        self.cwnd
    }

    /// The window in packets, at least two (and at most what a `usize` holds).
    pub fn cwnd_packets(&self) -> (r: usize)
        requires
            self.wf(),
        ensures
            r == smaller(self@.packets(), usize::MAX as int),
    {
        let n: u64 = self.cwnd / self.mtu;
        if n < MIN_CWND_PACKETS {
            MIN_CWND_PACKETS as usize
        } else if n > usize::MAX as u64 {
            usize::MAX
        } else {
            n as usize
        }
    }

    /// The pacing rate in bytes per second.
    pub fn pacing_rate(&self) -> (r: u64)
        ensures
            r == self@.pacing_rate,
    {
        self.pacing_rate
    }

    /// The round-trip estimate.
    pub fn smoothed_rtt(&self) -> (r: Duration)
        ensures
            r.nanos == self@.min_rtt,
    {
        self.min_rtt
    }

    /// The retransmission timeout.
    pub fn rto(&self) -> (r: Duration)
        ensures
            r.nanos == self@.rto(),
            r.nanos <= RTO_MAX_NANOS,
    {
        match self.smoothed {
            Some((srtt, rttvar)) => {
                let t: u128 = srtt as u128 + 4 * (rttvar as u128);
                if t <= RTO_MAX_NANOS as u128 {
                    Duration { nanos: t as u64 }
                } else {
                    Duration { nanos: RTO_MAX_NANOS }
                }
            },
            None => Duration { nanos: INITIAL_RTT_NANOS },
        }
    }

    /// How many bytes can still be sent.
    pub fn available_cwnd(&self) -> (r: u64)
        ensures
            r == less(self@.cwnd, self@.in_flight),
    {
        self.cwnd.saturating_sub(self.bytes_in_flight)
    }

    /// How many packets may be sent again per tick.
    pub fn retransmit_budget(&self) -> (r: usize)
        requires
            self.wf(),
        ensures
            r == self@.budget(),
            2 <= r <= 64,
    {
        let quarter: usize = self.cwnd_packets() / 4;
        if quarter < 2 {
            2
        } else if quarter > 64 {
            64
        } else {
            quarter
        }
    }

    /// Whether more data can be sent.
    pub fn can_send(&self) -> (r: bool)
        ensures
            r == (self@.in_flight < self@.cwnd),
    {
        self.bytes_in_flight < self.cwnd
    }

    /// Whether another packet may be released now: while the window has room.
    pub fn can_pace_packet(&self) -> (r: bool)
        ensures
            r == (self@.in_flight < self@.cwnd),
    {
        self.can_send()
    }

    /// `bytes` of data were sent.
    pub fn on_send(&mut self, bytes: u64)
        ensures
            final(self)@ == old(self)@.sent(bytes as int),
            old(self).wf() ==> final(self).wf(),
    {
        self.bytes_in_flight = self.bytes_in_flight.saturating_add(bytes);
    }

    /// `bytes` were acknowledged after a round trip of `rtt`.
    pub fn on_ack(&mut self, bytes: u64, rtt: Duration)
        requires
            old(self).wf(),
        ensures
            final(self).wf(),
            exists|now: int| final(self)@ == old(self)@.acked(bytes as int, Some(rtt.nanos as int), now),
    {
        let now = self.clock.now();
        self.on_ack_at(bytes, Some(rtt), now);
    }

    /// `bytes` were acknowledged, none of them with a usable round trip.
    pub fn on_ack_no_rtt(&mut self, bytes: u64)
        requires
            old(self).wf(),
        ensures
            final(self).wf(),
            exists|now: int| final(self)@ == old(self)@.acked(bytes as int, None, now),
    {
        let now = self.clock.now();
        self.on_ack_at(bytes, None, now);
    }

    /// `bytes` were acknowledged at `now`.
    pub fn on_ack_at(&mut self, bytes: u64, rtt: Option<Duration>, now: Instant)
        requires
            old(self).wf(),
        ensures
            final(self).wf(),
            final(self)@ == old(self)@.acked(
                bytes as int,
                match rtt {
                    Some(d) => Some(d.nanos as int),
                    None => None,
                },
                now.nanos as int,
            ),
    {
        self.bytes_in_flight = self.bytes_in_flight.saturating_sub(bytes);
        self.total_acked = self.total_acked.saturating_add(bytes);
        if let Some(d) = rtt {
            self.update_rtt(d, now);
        }
        self.update_bandwidth(bytes, now);
        self.grow(bytes, now);
        self.update_pacing_rate();
        self.last_ack_time = now;
    }

    /// `bytes_lost` bytes were lost.
    pub fn on_loss(&mut self, bytes_lost: u64)
        requires
            old(self).wf(),
        ensures
            final(self).wf(),
            final(self)@ == old(self)@.lost(bytes_lost as int),
    {
        self.bytes_in_flight = self.bytes_in_flight.saturating_sub(bytes_lost);
        self.loss_count = self.loss_count.saturating_add(1);
        let floor: u64 = crate::time::mul_capped(MIN_CWND_PACKETS, self.mtu);
        match self.phase {
            Phase::SlowStart => {
                self.ssthresh = self.cwnd / 2;
                self.cwnd = if self.ssthresh >= floor {
                    self.ssthresh
                } else {
                    floor
                };
                self.phase = Phase::ProbeBandwidth;
            },
            Phase::ProbeBandwidth => {
                let n: u64 = mul_div_capped(self.cwnd, 7, 10);
                self.cwnd = if n >= floor {
                    n
                } else {
                    floor
                };
            },
            Phase::ProbeRtt => {},
        }
        self.update_pacing_rate();
    }

    /// Time passes: the state moves on acknowledgements and losses only.
    pub fn on_tick(&mut self)
        ensures
            final(self)@ == old(self)@,
            old(self).wf() ==> final(self).wf(),
    {
    }

    fn update_rtt(&mut self, rtt: Duration, now: Instant)
        ensures
            final(self)@ == old(self)@.rtt_sample(rtt.nanos as int, now.nanos as int),
    {
        if rtt.nanos < self.min_rtt.nanos || now.duration_since(self.min_rtt_stamp).nanos >= MIN_RTT_EXPIRY_NANOS {
            self.min_rtt = rtt;
            self.min_rtt_stamp = now;
        }
        self.smoothed = match self.smoothed {
            Some((srtt, rttvar)) => {
                let far: u64 = if srtt >= rtt.nanos {
                    srtt - rtt.nanos
                } else {
                    rtt.nanos - srtt
                };
                let s: u128 = (srtt as u128 * 7 + rtt.nanos as u128) / 8;
                let v: u128 = (rttvar as u128 * 3 + far as u128) / 4;
                Some((s as u64, v as u64))
            },
            None => Some((rtt.nanos, rtt.nanos / 2)),
        };
    }

    fn update_bandwidth(&mut self, acked_bytes: u64, now: Instant)
        ensures
            final(self)@ == old(self)@.bandwidth_sample(acked_bytes as int, now.nanos as int),
    {
        let micros: u64 = now.duration_since(self.last_ack_time).as_micros();
        if micros > 0 {
            let bw: u64 = mul_div_capped(acked_bytes, 1_000_000, micros);
            if bw > self.max_bandwidth {
                self.max_bandwidth = bw;
            }
        }
    }

    fn grow(&mut self, bytes: u64, now: Instant)
        requires
            old(self).wf(),
        ensures
            final(self).wf(),
            final(self)@ == old(self)@.grown(bytes as int, now.nanos as int),
    {
        match self.phase {
            Phase::SlowStart => {
                self.cwnd = self.cwnd.saturating_add(bytes);
                if self.cwnd >= self.ssthresh {
                    self.phase = Phase::ProbeBandwidth;
                }
            },
            Phase::ProbeBandwidth => {
                let n: u64 = mul_div_capped(
                    bytes,
                    self.mtu,
                    if self.cwnd >= 1 {
                        self.cwnd
                    } else {
                        1
                    },
                );
                proof {
                    assert(bytes * self.mtu / larger(self.cwnd as int, 1) >= 0) by {
                        assert(bytes * self.mtu >= 0) by (nonlinear_arith);
                        vstd::arithmetic::div_mod::lemma_div_pos_is_pos(bytes * self.mtu, larger(self.cwnd as int, 1));
                    }
                }
                self.cwnd = self.cwnd.saturating_add(n);
            },
            Phase::ProbeRtt => {
                self.cwnd = crate::time::mul_capped(MIN_CWND_PACKETS * 2, self.mtu);
                if let Some(timer) = self.probe_rtt_timer {
                    if now.duration_since(timer).nanos >= PROBE_RTT_NANOS {
                        self.phase = Phase::ProbeBandwidth;
                        self.probe_rtt_timer = None;
                        let n: u64 = crate::time::mul_capped(MIN_CWND_PACKETS * 4, self.mtu);
                        self.cwnd = if n >= self.cwnd {
                            n
                        } else {
                            self.cwnd
                        };
                    }
                }
            },
        }
    }

    fn update_pacing_rate(&mut self)
        requires
            old(self).wf(),
        ensures
            final(self).wf(),
            final(self)@ == old(self)@.paced(),
    {
        let micros: u64 = self.min_rtt.as_micros();
        self.pacing_rate = mul_div_capped(
            self.cwnd,
            1_000_000,
            if micros >= 1 {
                micros
            } else {
                1
            },
        );
    }
}

proof fn lemma_capped_order(a: int, b: int)
    requires
        a <= b,
    ensures
        capped(a) <= capped(b),
{
}

/// A new controller is well formed, and stays so whatever is sent, acknowledged and lost.
pub proof fn controllers_stay_well_formed(mtu: u64, now: int, s: CcState, e: CcEvent)
    requires
        mtu > 0,
        s.wf(),
        e.proper(),
    ensures
        CcState::initial(mtu as int, now).wf(),
        s.after(e).wf(),
        s.after(e).mtu == s.mtu,
{
    lemma_capped_order(MIN_CWND_PACKETS * mtu, INITIAL_CWND_PACKETS * mtu);
    if let CcEvent::Ack { bytes, rtt, now } = e {
        assert(bytes * s.mtu / larger(s.cwnd, 1) >= 0) by {
            assert(bytes * s.mtu >= 0) by (nonlinear_arith)
                requires
                    bytes >= 0,
                    s.mtu > 0,
            ;
            vstd::arithmetic::div_mod::lemma_div_pos_is_pos(bytes * s.mtu, larger(s.cwnd, 1));
        }
        lemma_capped_order(MIN_CWND_PACKETS * s.mtu, MIN_CWND_PACKETS * s.mtu * 2);
    }
}

/// A loss never leaves the window below two packets.
pub proof fn loss_keeps_the_window_above_its_floor(s: CcState, bytes: int)
    requires
        s.wf(),
    ensures
        s.lost(bytes).cwnd >= s.floor(),
{
}

/// A loss does not let the window grow.
pub proof fn loss_never_widens_the_window(s: CcState, bytes: int)
    requires
        s.wf(),
    ensures
        s.lost(bytes).cwnd <= s.cwnd,
{
}

/// After a loss the window has at least two packets and is no larger than before, the
/// estimate of the round trip stays, and the rate is that of the new window; for windows
/// whose rate 64 bits hold.
pub proof fn losses_are_paced(s: CcState, bytes: int)
    requires
        s.wf(),
        s.cwnd <= u64::MAX / 1_000_000,
    ensures
        ({
            let t = s.lost(bytes);
            &&& 2 * s.mtu <= t.cwnd <= s.cwnd
            &&& t.min_rtt == s.min_rtt
            &&& t.pacing_rate == t.cwnd * 1_000_000 / larger(t.min_rtt / 1000, 1)
        }),
{
    let t = s.lost(bytes);
    let d = larger(t.min_rtt / 1000, 1);
    assert(t.cwnd * 1_000_000 / d <= t.cwnd * 1_000_000 && t.cwnd * 1_000_000 / d >= 0) by (nonlinear_arith)
        requires
            d >= 1,
            t.cwnd >= 0,
    ;
}

/// What happens to a controller.
pub enum CcEvent {
    Send { bytes: int },
    Ack { bytes: int, rtt: Option<int>, now: int },
    Loss { bytes: int },
}

impl CcEvent {
    /// Sizes and times are not negative.
    pub open spec fn proper(self) -> bool {
        match self {
            CcEvent::Send { bytes } => bytes >= 0,
            CcEvent::Ack { bytes, rtt, .. } => bytes >= 0 && (rtt matches Some(r) ==> r >= 0),
            CcEvent::Loss { bytes } => bytes >= 0,
        }
    }
}

impl CcState {
    /// The state after an event.
    pub open spec fn after(self, e: CcEvent) -> CcState {
        match e {
            CcEvent::Send { bytes } => self.sent(bytes),
            CcEvent::Ack { bytes, rtt, now } => self.acked(bytes, rtt, now),
            CcEvent::Loss { bytes } => self.lost(bytes),
        }
    }

    /// The state after a run of events, in their order.
    pub open spec fn after_all(self, events: Seq<CcEvent>) -> CcState
        decreases events.len(),
    {
        if events.len() == 0 {
            self
        } else {
            self.after_all(events.drop_last()).after(events.last())
        }
    }
}

/// The least round trip of a run of events, and of what there was before.
pub open spec fn least_rtt(before: int, events: Seq<CcEvent>) -> int
    decreases events.len(),
{
    if events.len() == 0 {
        before
    } else {
        match events.last() {
            CcEvent::Ack { rtt: Some(r), .. } => smaller(least_rtt(before, events.drop_last()), r),
            _ => least_rtt(before, events.drop_last()),
        }
    }
}

/// Over any run of events in its first ten seconds, the estimate of a controller is the
/// least round trip that was measured, or the initial one where that is less: a smaller
/// sample replaces the estimate, and a larger one leaves it.
pub proof fn the_estimate_is_the_least_round_trip(mtu: int, start: int, events: Seq<CcEvent>)
    requires
        forall|i: int|
            0 <= i < events.len() ==> ((#[trigger] events[i]) matches CcEvent::Ack { now, .. } ==> start <= now < start
                + MIN_RTT_EXPIRY_NANOS),
    ensures
        CcState::initial(mtu, start).after_all(events).min_rtt == least_rtt(INITIAL_RTT_NANOS as int, events),
        start <= CcState::initial(mtu, start).after_all(events).min_rtt_stamp,
    decreases events.len(),
{
    if events.len() > 0 {
        let d = events.drop_last();
        assert forall|i: int| 0 <= i < d.len() implies ((#[trigger] d[i]) matches CcEvent::Ack { now, .. } ==> start <= now
            < start + MIN_RTT_EXPIRY_NANOS) by {
            assert(d[i] == events[i]);
        }
        the_estimate_is_the_least_round_trip(mtu, start, d);
        assert(events[events.len() - 1] == events.last());
    }
}

/// An acknowledgement never shrinks the window, outside the probing of the
/// round trip.
pub proof fn acknowledgement_never_shrinks_the_window(s: CcState, bytes: int, rtt: Option<int>, now: int)
    requires
        !(s.phase is ProbeRtt),
        0 <= s.cwnd <= u64::MAX,
        s.mtu > 0,
        bytes >= 0,
    ensures
        s.acked(bytes, rtt, now).cwnd >= s.cwnd,
{
    assert(bytes * s.mtu / larger(s.cwnd, 1) >= 0) by {
        assert(bytes * s.mtu >= 0) by (nonlinear_arith)
            requires
                bytes >= 0,
                s.mtu > 0,
        ;
        vstd::arithmetic::div_mod::lemma_div_pos_is_pos(bytes * s.mtu, larger(s.cwnd, 1));
    }
}

/// After slow start, an acknowledgement widens the window by its bytes' share of a packet, so
/// that a whole window of acknowledgements adds one packet, and one of a packet or more always
/// adds something to a window of no more than a packet of packets. The phase stays.
pub proof fn the_window_grows_by_a_packet_per_round(s: CcState, bytes: int, rtt: Option<int>, now: int)
    requires
        s.phase is ProbeBandwidth,
        s.wf(),
        bytes >= 0,
        s.cwnd + bytes * s.mtu / s.cwnd <= u64::MAX,
    ensures
        ({
            let t = s.acked(bytes, rtt, now);
            &&& t.phase is ProbeBandwidth
            &&& t.cwnd == s.cwnd + bytes * s.mtu / s.cwnd
            &&& bytes == s.cwnd ==> t.cwnd == s.cwnd + s.mtu
            &&& bytes >= s.mtu && s.cwnd <= s.mtu * s.mtu ==> t.cwnd > s.cwnd
        }),
{
    assert(s.cwnd >= 1);
    if bytes == s.cwnd {
        assert(s.cwnd * s.mtu / s.cwnd == s.mtu) by (nonlinear_arith)
            requires
                s.cwnd >= 1,
        ;
    }
    if bytes >= s.mtu && s.cwnd <= s.mtu * s.mtu {
        assert(bytes * s.mtu / s.cwnd >= 1) by (nonlinear_arith)
            requires
                s.cwnd >= 1,
                s.mtu >= 1,
                bytes >= s.mtu,
                s.cwnd <= s.mtu * s.mtu,
        ;
    }
    assert(bytes * s.mtu / s.cwnd >= 0) by (nonlinear_arith)
        requires
            s.cwnd >= 1,
            s.mtu >= 1,
            bytes >= 0,
    ;
}

/// In slow start an acknowledgement widens the window by what it acknowledges, so that a whole
/// window of acknowledgements doubles it, until the window reaches the threshold.
pub proof fn slow_start_doubles_the_window(s: CcState, bytes: int, rtt: Option<int>, now: int)
    requires
        s.phase is SlowStart,
        s.wf(),
        0 <= bytes,
        s.cwnd + bytes <= u64::MAX,
    ensures
        ({
            let t = s.acked(bytes, rtt, now);
            &&& t.cwnd == s.cwnd + bytes
            &&& bytes == s.cwnd ==> t.cwnd == 2 * s.cwnd
            &&& t.phase is SlowStart <==> s.cwnd + bytes < s.ssthresh
            &&& t.phase is SlowStart || t.phase is ProbeBandwidth
        }),
{
}

/// The first loss halves the window and ends slow start; a later one leaves seven tenths of
/// it. The window keeps two packets in any case, and each loss is counted.
pub proof fn losses_narrow_the_window(s: CcState, bytes: int)
    requires
        s.wf(),
        2 * s.mtu <= u64::MAX,
    ensures
        ({
            let t = s.lost(bytes);
            &&& s.phase is SlowStart ==> t.phase is ProbeBandwidth && (t.cwnd == s.cwnd / 2 || (s.cwnd < 4 * s.mtu + 2
                && t.cwnd == 2 * s.mtu)) && t.cwnd >= 2 * s.mtu && t.ssthresh == s.cwnd / 2
            &&& s.phase is ProbeBandwidth ==> t.phase is ProbeBandwidth && (t.cwnd == s.cwnd * 7 / 10 || (s.cwnd * 7
                < 20 * s.mtu + 10 && t.cwnd == 2 * s.mtu)) && t.cwnd >= 2 * s.mtu && t.ssthresh == s.ssthresh
            &&& s.losses < u32::MAX ==> t.losses == s.losses + 1
        }),
{
}

/// What is sent is in flight until it is acknowledged or lost.
pub proof fn bytes_are_in_flight_until_settled(s: CcState, sent: int, rtt: Option<int>, now: int)
    requires
        s.wf(),
        sent >= 0,
        s.in_flight + sent <= u64::MAX,
    ensures
        s.sent(sent).in_flight == s.in_flight + sent,
        s.sent(sent).acked(sent, rtt, now).in_flight == s.in_flight,
        s.sent(sent).lost(sent).in_flight == s.in_flight,
        s.sent(sent).cwnd == s.cwnd,
{
}

/// A controller starts with a window of ten packets in slow start, and with a timeout of a
/// tenth of a second.
pub proof fn controllers_start_with_ten_packets(mtu: u64, now: int)
    requires
        10 * mtu <= u64::MAX,
    ensures
        ({
            let s = CcState::initial(mtu as int, now);
            &&& s.cwnd == 10 * mtu && s.phase is SlowStart && s.in_flight == 0 && s.losses == 0
            &&& s.rto() == 100_000_000
        }),
{
}

/// The timeout follows the round trips: the first one is taken three times over, and one that
/// repeats itself brings the timeout closer to itself. It never exceeds sixteen seconds, and
/// is not below the smoothed round trip otherwise.
pub proof fn the_timeout_follows_round_trips(s: CcState, bytes: int, rtt: int, now: int)
    requires
        0 <= rtt,
    ensures
        ({
            let t = s.acked(bytes, Some(rtt), now);
            &&& s.smoothed is None ==> t.smoothed == Some((rtt, rtt / 2)) && t.rto() == (if rtt + 4 * (rtt / 2)
                < 16_000_000_000 {
                rtt + 4 * (rtt / 2)
            } else {
                16_000_000_000
            })
            &&& s.smoothed matches Some((srtt, var)) ==> (t.smoothed matches Some((a, v)) && {
                &&& srtt <= rtt ==> srtt <= a <= rtt && 8 * a <= 7 * srtt + rtt < 8 * a + 8 && 4 * v <= 3 * var + (rtt
                    - srtt) < 4 * v + 4
                &&& srtt >= rtt ==> rtt <= a <= srtt && 8 * a <= 7 * srtt + rtt < 8 * a + 8 && 4 * v <= 3 * var + (srtt
                    - rtt) < 4 * v + 4
                &&& t.rto() == if a + 4 * v < 16_000_000_000 {
                    a + 4 * v
                } else {
                    16_000_000_000
                }
            })
            &&& s.acked(bytes, None, now).smoothed == s.smoothed
        }),
{
}

/// The packets that may go out again in one tick are a quarter of the window, but two at least
/// and 64 at most.
pub proof fn resends_take_a_quarter_of_the_window(s: CcState)
    requires
        s.wf(),
        2 * s.mtu <= u64::MAX,
    ensures
        2 <= s.budget() <= 64,
        8 * s.mtu <= s.cwnd < 260 * s.mtu ==> s.budget() == s.cwnd / s.mtu / 4,
        s.cwnd >= 260 * s.mtu ==> s.budget() == 64,
        s.cwnd < 12 * s.mtu ==> s.budget() == 2,
{
    assert(s.cwnd < 260 * s.mtu ==> s.cwnd / s.mtu < 260) by (nonlinear_arith)
        requires
            s.mtu > 0,
    ;
    assert(s.cwnd >= 260 * s.mtu ==> s.cwnd / s.mtu >= 260) by (nonlinear_arith)
        requires
            s.mtu > 0,
    ;
    assert(s.cwnd >= 8 * s.mtu ==> s.cwnd / s.mtu >= 8) by (nonlinear_arith)
        requires
            s.mtu > 0,
    ;
    assert(s.cwnd < 12 * s.mtu ==> s.cwnd / s.mtu < 12) by (nonlinear_arith)
        requires
            s.mtu > 0,
    ;
}

/// After an acknowledgement the rate is that of one window per least round trip.
pub proof fn acknowledgements_are_paced(s: CcState, bytes: int, rtt: Option<int>, now: int)
    requires
        s.wf(),
        s.acked(bytes, rtt, now).cwnd <= u64::MAX / 1_000_000,
        s.acked(bytes, rtt, now).cwnd >= 0,
    ensures
        ({
            let t = s.acked(bytes, rtt, now);
            t.min_rtt >= 1000 ==> t.pacing_rate == t.cwnd * 1_000_000 / (t.min_rtt / 1000)
        }),
        s.acked(bytes, rtt, now).last_ack == now,
        s.acked(bytes, rtt, now).total_acked == crate::time::capped(s.total_acked + bytes),
{
    let t = s.acked(bytes, rtt, now);
    if t.min_rtt >= 1000 {
        let d = t.min_rtt / 1000;
        assert(t.cwnd * 1_000_000 / d <= t.cwnd * 1_000_000 && t.cwnd * 1_000_000 / d >= 0) by (nonlinear_arith)
            requires
                d >= 1,
                t.cwnd >= 0,
        ;
    }
}

} // verus!
