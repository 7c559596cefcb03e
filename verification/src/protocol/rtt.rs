//! RTT estimation via RTCP APP echo request/response.
//!
//! Uses exponentially weighted moving average (EWMA), similar to TCP's SRTT.

use vstd::prelude::*;

use crate::time::{Duration, Instant};

verus! {

/// What an [`RttEstimator`] knows.
pub struct RttView {
    /// Smoothed RTT.
    pub srtt: Option<Duration>,
    /// RTT variance.
    pub rttvar: Option<Duration>,
    /// When the last echo request was sent.
    pub last_request_time: Option<Instant>,
    /// Timestamp in the last request.
    pub last_request_timestamp: Option<u64>,
    /// Interval between RTT echo requests.
    pub request_interval: Duration,
    /// Time of next scheduled request.
    pub next_request_at: Option<Instant>,
}

/// The distance of two spans.
pub open spec fn spread(a: Duration, b: Duration) -> int {
    if a.nanos > b.nanos {
        a.nanos - b.nanos
    } else {
        b.nanos - a.nanos
    }
}

impl RttView {
    /// The estimate after a measurement: TCP-style EWMA (RFC 6298), each term
    /// rounded down to a nanosecond.
    pub open spec fn sampled(self, sample: Duration) -> RttView {
        match self.srtt {
            None => RttView {
                srtt: Some(sample),
                rttvar: Some(Duration { nanos: sample.nanos / 2 }),
                ..self
            },
            Some(srtt) => {
                let rttvar = match self.rttvar {
                    Some(v) => v.nanos as int,
                    None => sample.nanos as int / 2,
                };
                RttView {
                    srtt: Some(
                        Duration {
                            nanos: (srtt.nanos as int * 7 / 8 + sample.nanos as int / 8) as u128,
                        },
                    ),
                    rttvar: Some(
                        Duration { nanos: (rttvar * 3 / 4 + spread(sample, srtt) / 4) as u128 },
                    ),
                    ..self
                }
            },
        }
    }

    /// The measurement that a response arriving at `now` gives: the time
    /// since the request, less the responder's processing time.
    pub open spec fn measured(self, now: Instant, processing_delay_us: u32) -> Duration {
        let total = now.duration_since(self.last_request_time->0);
        Duration {
            nanos: crate::time::excess(total.nanos, (processing_delay_us * 1_000) as u128),
        }
    }

    /// What is known after a response arrives at `now`.
    pub open spec fn after_response(self, now: Instant, processing_delay_us: u32) -> RttView {
        if self.last_request_time is Some {
            self.sampled(self.measured(now, processing_delay_us))
        } else {
            self
        }
    }

    /// The timestamp of a request sent at `now`: microseconds since the first
    /// request, modulo 2^64.
    pub open spec fn request_timestamp(self, now: Instant) -> int {
        match self.last_request_timestamp {
            None => 0,
            Some(last) => {
                let elapsed = match self.last_request_time {
                    Some(sent) => now.duration_since(sent).nanos as int / 1_000,
                    None => 0,
                };
                (last + elapsed) % 0x1_0000_0000_0000_0000
            },
        }
    }

    /// What is known after a request is sent at `now`.
    pub open spec fn after_request(self, now: Instant) -> RttView {
        RttView {
            last_request_time: Some(now),
            last_request_timestamp: Some(self.request_timestamp(now) as u64),
            next_request_at: Some(now.after(self.request_interval)),
            ..self
        }
    }

    /// Whether a request is due at `now`.
    pub open spec fn request_due(self, now: Instant) -> bool {
        match self.next_request_at {
            None => true,
            Some(next) => now.nanos >= next.nanos,
        }
    }
}

/// What an [`RttEstimate`] holds.
pub struct RttEstimateView {
    pub srtt: Option<Duration>,
    pub rttvar: Option<Duration>,
    pub last_request_time: Option<Instant>,
    pub last_request_timestamp: Option<u64>,
}

/// The measurements of an [`RttEstimator`].
#[derive(Debug)]
pub struct RttEstimate {
    /// Smoothed RTT (EWMA).
    srtt: Option<Duration>,
    /// RTT variance.
    rttvar: Option<Duration>,
    /// Time when the last echo request was sent.
    last_request_time: Option<Instant>,
    /// Timestamp value included in the last request (for matching responses).
    last_request_timestamp: Option<u64>,
}

impl View for RttEstimate {
    type V = RttEstimateView;

    closed spec fn view(&self) -> RttEstimateView {
        RttEstimateView {
            srtt: self.srtt,
            rttvar: self.rttvar,
            last_request_time: self.last_request_time,
            last_request_timestamp: self.last_request_timestamp,
        }
    }
}

/// RTT estimator using RTCP RTT Echo Request/Response.
#[derive(Debug)]
pub struct RttEstimator {
    /// What has been measured.
    pub estimate: RttEstimate,
    /// Interval between RTT echo requests.
    pub request_interval: Duration,
    /// Time of next scheduled request.
    pub next_request_at: Option<Instant>,
}

impl View for RttEstimator {
    type V = RttView;

    open spec fn view(&self) -> RttView {
        RttView {
            srtt: self.estimate@.srtt,
            rttvar: self.estimate@.rttvar,
            last_request_time: self.estimate@.last_request_time,
            last_request_timestamp: self.estimate@.last_request_timestamp,
            request_interval: self.request_interval,
            next_request_at: self.next_request_at,
        }
    }
}

impl RttEstimator {
    pub fn new(request_interval: Duration) -> (e: Self)
        ensures
            e@ == (RttView {
                srtt: None,
                rttvar: None,
                last_request_time: None,
                last_request_timestamp: None,
                request_interval,
                next_request_at: None,
            }),
    {
        Self {
            estimate: RttEstimate {
                srtt: None,
                rttvar: None,
                last_request_time: None,
                last_request_timestamp: None,
            },
            request_interval,
            next_request_at: None,
        }
    }

    /// Generate a timestamp for an outgoing RTT Echo Request.
    /// Returns (msw, lsw) to include in the RTCP APP packet.
    pub fn generate_request(&mut self, now: Instant) -> (r: (u32, u32))
        ensures
            final(self)@ == old(self)@.after_request(now),
            r.0 * 0x1_0000_0000 + r.1 == old(self)@.request_timestamp(now),
    {
        let since: Instant = match self.estimate.last_request_time {
            Some(t) => t,
            None => now,
        };
        let elapsed: u128 = now.duration_since(since).as_micros();
        let ts: u64 = match self.estimate.last_request_timestamp {
            None => 0,
            Some(last) => ((last as u128 + elapsed) % 0x1_0000_0000_0000_0000) as u64,
        };
        self.estimate.last_request_time = Some(now);
        self.estimate.last_request_timestamp = Some(ts);
        self.next_request_at = Some(now.after(self.request_interval));
        ((ts / 0x1_0000_0000) as u32, (ts % 0x1_0000_0000) as u32)
    }

    /// Process an incoming RTT Echo Response.
    /// `request_msw`/`request_lsw` are the echoed timestamp from our request.
    /// `processing_delay_us` is the responder's processing time.
    pub fn on_response(
        &mut self,
        now: Instant,
        request_msw: u32,
        request_lsw: u32,
        processing_delay_us: u32,
    )
        ensures
            final(self)@ == old(self)@.after_response(now, processing_delay_us),
    {
        if let Some(sent_time) = self.estimate.last_request_time {
            let total_time: Duration = now.duration_since(sent_time);
            let processing: Duration = Duration::from_micros(processing_delay_us as u64);
            self.update_rtt(total_time.saturating_sub(processing));
        }
    }

    /// Update SRTT and RTTVAR using TCP-style EWMA (RFC 6298).
    pub fn update_rtt(&mut self, sample: Duration)
        ensures
            final(self)@ == old(self)@.sampled(sample),
    {
        match self.estimate.srtt {
            None => {
                self.estimate.srtt = Some(sample);
                self.estimate.rttvar = Some(sample.half());
            },
            Some(srtt) => {
                let rttvar: Duration = match self.estimate.rttvar {
                    Some(v) => v,
                    None => sample.half(),
                };
                let diff: u128 = if sample.nanos > srtt.nanos {
                    sample.nanos - srtt.nanos
                } else {
                    srtt.nanos - sample.nanos
                };
                let new_rttvar: u128 = eighths(rttvar.nanos, 6) + diff / 4;
                let new_srtt: u128 = eighths(srtt.nanos, 7) + sample.nanos / 8;
                self.estimate.srtt = Some(Duration::from_nanos(new_srtt));
                self.estimate.rttvar = Some(Duration::from_nanos(new_rttvar));
            },
        }
    }

    /// Get the current smoothed RTT estimate.
    pub fn srtt(&self) -> (d: Option<Duration>)
        ensures
            d == self@.srtt,
    {
        self.estimate.srtt
    }

    /// Get the recommended NACK delay based on RTT.
    /// Returns half the SRTT (fire NACK after half RTT for timely recovery).
    pub fn nack_delay(&self) -> (d: Option<Duration>)
        ensures
            d == match self@.srtt {
                Some(s) => Some(Duration { nanos: s.nanos / 2 }),
                None => None,
            },
    {
        match self.estimate.srtt {
            Some(s) => Some(s.half()),
            None => None,
        }
    }

    /// Check if it's time to send an RTT Echo Request.
    pub fn should_send_request(&self, now: Instant) -> (b: bool)
        ensures
            b == self@.request_due(now),
    {
        match self.next_request_at {
            None => true,
            Some(next) => now.nanos >= next.nanos,
        }
    }
}

/// `k` eighths of `n`, rounded down.
fn eighths(n: u128, k: u128) -> (r: u128)
    requires
        k <= 8,
    ensures
        r == n * k / 8,
        r <= n,
{
    let q: u128 = n / 8;
    let m: u128 = n % 8;
    assert(n * k == (q * k) * 8 + m * k) by (nonlinear_arith)
        requires
            n == q * 8 + m,
    ;
    assert(0 <= m * k <= 64) by (nonlinear_arith)
        requires
            0 <= m < 8,
            0 <= k <= 8,
    ;
    assert(0 <= q * k <= q * 8) by (nonlinear_arith)
        requires
            0 <= k <= 8,
            0 <= q,
    ;
    assert(m * k <= m * 8) by (nonlinear_arith)
        requires
            0 <= k <= 8,
            0 <= m,
    ;
    q * k + m * k / 8
}

/// The smoothed RTT stays between the previous estimate and the measurement,
/// but for the nanosecond that rounding may take off.
pub proof fn law_srtt_stays_in_range(v: RttView, sample: Duration)
    requires
        v.srtt is Some,
    ensures
        ({
            let before = v.srtt->0.nanos;
            let after = v.sampled(sample).srtt->0.nanos;
            &&& v.sampled(sample).srtt is Some
            &&& after <= before || after <= sample.nanos
            &&& after + 1 >= before || after + 1 >= sample.nanos
        }),
{
}

/// The first measurement is the estimate.
pub proof fn law_first_sample_is_the_estimate(v: RttView, sample: Duration)
    requires
        v.srtt is None,
    ensures
        v.sampled(sample).srtt == Some(sample),
{
}

/// Each further measurement moves the smoothed RTT an eighth of the way towards
/// it, up as well as down, but for the nanoseconds that rounding takes off. A
/// measurement further above the estimate than that raises it.
pub proof fn law_srtt_moves_an_eighth_of_the_way(v: RttView, sample: Duration)
    requires
        v.srtt is Some,
    ensures
        ({
            let before = v.srtt->0.nanos;
            let after = v.sampled(sample).srtt->0.nanos;
            &&& v.sampled(sample).srtt is Some
            &&& -16 < 8 * after - (7 * before + sample.nanos) <= 0
            &&& sample.nanos >= before + 16 ==> after > before
            &&& sample.nanos < before ==> after < before
        }),
{
}

/// Each further measurement moves the variance a quarter of the way towards
/// the distance between the measurement and the estimate.
pub proof fn law_rttvar_moves_a_quarter_of_the_way(v: RttView, sample: Duration)
    requires
        v.srtt is Some,
        v.rttvar is Some,
    ensures
        ({
            let before = v.rttvar->0.nanos;
            let after = v.sampled(sample).rttvar->0.nanos;
            let srtt = v.srtt->0.nanos;
            let away = if sample.nanos >= srtt {
                sample.nanos - srtt
            } else {
                srtt - sample.nanos
            };
            &&& v.sampled(sample).rttvar is Some
            &&& -8 < 4 * after - (3 * before + away) <= 0
        }),
{
}

/// The first measurement sets the variance to half of itself, and measurements
/// change nothing but the estimate.
pub proof fn law_sample_changes_the_estimate_alone(v: RttView, sample: Duration)
    ensures
        v.srtt is None ==> v.sampled(sample).rttvar == Some(Duration { nanos: sample.nanos / 2 }),
        v.sampled(sample).last_request_time == v.last_request_time,
        v.sampled(sample).last_request_timestamp == v.last_request_timestamp,
        v.sampled(sample).request_interval == v.request_interval,
        v.sampled(sample).next_request_at == v.next_request_at,
{
}

/// A response measures the time since the request less what the responder says
/// it took, and nothing where that is more. Without a request there is nothing
/// to measure.
pub proof fn law_response_measures_the_round_trip(
    v: RttView,
    sent: Instant,
    now: Instant,
    delay_us: u32,
)
    ensures
        ({
            let sample = v.after_request(sent).measured(now, delay_us).nanos;
            let passed = now.nanos - sent.nanos - delay_us * 1_000;
            &&& passed >= 0 ==> sample == passed
            &&& passed < 0 ==> sample == 0
            &&& v.srtt is None ==> v.after_request(sent).after_response(now, delay_us).srtt
                == Some(Duration { nanos: sample })
        }),
        v.last_request_time is None ==> v.after_response(now, delay_us) == v,
{
}

/// A response after an earlier one moves the estimate an eighth of the way
/// towards the round trip that it measured.
pub proof fn law_response_moves_the_estimate(
    v: RttView,
    sent: Instant,
    now: Instant,
    delay_us: u32,
)
    requires
        v.srtt is Some,
        now.nanos >= sent.nanos + delay_us * 1_000,
    ensures
        ({
            let before = v.srtt->0.nanos;
            let after = v.after_request(sent).after_response(now, delay_us).srtt;
            let trip = now.nanos - sent.nanos - delay_us * 1_000;
            after is Some && -16 < 8 * after->0.nanos - (7 * before + trip) <= 0
        }),
{
}

/// The first request carries zero, and each further one the microseconds that
/// have passed since the one before in addition to what that carried.
pub proof fn law_request_timestamps_count_microseconds(v: RttView, first: Instant, next: Instant)
    requires
        first.nanos <= next.nanos,
    ensures
        v.last_request_timestamp is None ==> v.request_timestamp(first) == 0,
        v.after_request(first).request_timestamp(next) == (v.request_timestamp(first) + (next.nanos
            - first.nanos) / 1_000) % 0x1_0000_0000_0000_0000,
{
}

/// A request is due at once, and then whenever the interval has passed since
/// the last one.
pub proof fn law_requests_keep_the_interval(v: RttView, sent: Instant, later: Instant)
    requires
        sent.nanos + v.request_interval.nanos <= u128::MAX,
    ensures
        v.next_request_at is None ==> v.request_due(later),
        v.after_request(sent).request_due(later) <==> later.nanos >= sent.nanos
            + v.request_interval.nanos,
        v.after_request(sent).srtt == v.srtt,
        v.after_request(sent).rttvar == v.rttvar,
        v.after_request(sent).request_interval == v.request_interval,
{
}

} // verus!
