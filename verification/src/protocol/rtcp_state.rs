//! RTCP sender and receiver state machines.
//!
//! Tracks the state needed to generate RTCP SR and RR packets per RFC 3550.

use vstd::prelude::*;

use crate::packet::rtcp_rr::{ReceiverReport, ReceiverReportView, ReportBlock};
use crate::packet::rtcp_sdes::{Sdes, SdesView};
use crate::packet::rtcp_sr::SenderReport;
use crate::serial;
use crate::time::{Duration, Instant, SystemTime, NTP_EPOCH_OFFSET};

verus! {

/// `n` modulo 2^32.
pub open spec fn mod32(n: int) -> u32 {
    (n % 0x1_0000_0000) as u32
}

/// The NTP timestamp of a wall-clock time: seconds since 1900-01-01 modulo
/// 2^32, and the rest of the second in units of 2^-32.
pub open spec fn ntp_of(time: SystemTime) -> (u32, u32) {
    let nanos = time.since_unix.nanos as int;
    (
        mod32(nanos / 1_000_000_000 + NTP_EPOCH_OFFSET),
        (nanos % 1_000_000_000 * 0x1_0000_0000 / 1_000_000_000) as u32,
    )
}

/// The 90 kHz clock at `now`: NTP time in microseconds, counted from the wall
/// clock at `epoch` by the monotonic clock, in ticks modulo 2^32.
pub open spec fn rtp_clock(epoch_system: SystemTime, epoch: Instant, now: Instant) -> u32 {
    let ntp_us = epoch_system.since_unix.nanos as int / 1_000 + NTP_EPOCH_OFFSET * 1_000_000
        + now.duration_since(epoch).nanos as int / 1_000;
    mod32(ntp_us * 90 / 1_000)
}

/// Convert a SystemTime to NTP timestamp (seconds since 1900-01-01).
/// Returns (MSW, LSW).
pub fn system_time_to_ntp(time: SystemTime) -> (r: (u32, u32))
    ensures
        r == ntp_of(time),
{
    let nanos: u128 = time.since_unix.nanos;
    let secs: u128 = nanos / 1_000_000_000 + NTP_EPOCH_OFFSET as u128;
    let frac: u128 = nanos % 1_000_000_000 * 0x1_0000_0000 / 1_000_000_000;
    ((secs % 0x1_0000_0000) as u32, frac as u32)
}

/// Convert wall-clock time to an NTP-aligned 90 kHz RTP timestamp.
///
/// NTP seconds = unix_epoch + 2,208,988,800. RTP timestamp = NTP * 90000.
/// Time advances by the monotonic clock from a captured wall-clock epoch.
pub fn ntp_to_rtp90k(epoch_system: SystemTime, epoch_instant: Instant, now: Instant) -> (ts: u32)
    ensures
        ts == rtp_clock(epoch_system, epoch_instant, now),
{
    let elapsed: Duration = now.duration_since(epoch_instant);
    let ntp_us: u128 = epoch_system.since_unix.as_micros() + NTP_EPOCH_OFFSET as u128 * 1_000_000
        + elapsed.as_micros();
    (ntp_us * 90 / 1_000 % 0x1_0000_0000) as u32
}

/// Whether `interval` has passed since `last`.
pub open spec fn interval_over(last: Instant, interval: Duration, now: Instant) -> bool {
    now.duration_since(last).nanos >= interval.nanos
}

/// What an [`RtcpSenderState`] holds.
#[verifier::ext_equal]
pub struct RtcpSenderView {
    pub ssrc: u32,
    pub cname: Seq<char>,
    pub packet_count: u32,
    pub octet_count: u32,
    pub last_rtp_timestamp: u32,
    pub last_rtp_wallclock: Option<Instant>,
    pub rtp_ts_epoch: Instant,
    pub rtp_ts_epoch_system: SystemTime,
    pub last_rtcp_time: Option<Instant>,
    pub rtcp_interval: Duration,
}

impl RtcpSenderView {
    /// The state after a packet is sent. The counters wrap at 32 bits.
    pub open spec fn after_packet(
        self,
        payload_size: usize,
        rtp_timestamp: u32,
        now: Instant,
    ) -> RtcpSenderView {
        RtcpSenderView {
            packet_count: mod32(self.packet_count + 1),
            octet_count: mod32(self.octet_count + payload_size),
            last_rtp_timestamp: rtp_timestamp,
            last_rtp_wallclock: Some(now),
            ..self
        }
    }

    /// The report at `now`, when the wall clock shows `wall`.
    pub open spec fn report(self, now: Instant, wall: SystemTime) -> SenderReport {
        SenderReport {
            ssrc: self.ssrc,
            ntp_msw: ntp_of(wall).0,
            ntp_lsw: ntp_of(wall).1,
            rtp_timestamp: rtp_clock(self.rtp_ts_epoch_system, self.rtp_ts_epoch, now),
            sender_packet_count: self.packet_count,
            sender_octet_count: self.octet_count,
        }
    }
}

/// What a [`MediaClock`] holds.
pub struct MediaClockView {
    pub last_rtp_wallclock: Option<Instant>,
    pub rtp_ts_epoch: Instant,
    pub rtp_ts_epoch_system: SystemTime,
}

/// The clock that a sender's RTP timestamps are taken from.
#[derive(Debug)]
pub struct MediaClock {
    /// Wall-clock time when the last RTP timestamp was captured.
    last_rtp_wallclock: Option<Instant>,
    /// RTP clock epoch (monotonic) for wall-clock-to-RTP conversion.
    rtp_ts_epoch: Instant,
    /// RTP clock epoch (wall clock) for NTP-aligned timestamp generation.
    rtp_ts_epoch_system: SystemTime,
}

impl View for MediaClock {
    type V = MediaClockView;

    closed spec fn view(&self) -> MediaClockView {
        MediaClockView {
            last_rtp_wallclock: self.last_rtp_wallclock,
            rtp_ts_epoch: self.rtp_ts_epoch,
            rtp_ts_epoch_system: self.rtp_ts_epoch_system,
        }
    }
}

/// State maintained by a RIST sender for RTCP generation.
#[derive(Debug)]
pub struct RtcpSenderState {
    /// Our SSRC.
    pub ssrc: u32,
    /// CNAME for SDES packets.
    pub cname: String,
    /// Total packets sent.
    pub packet_count: u32,
    /// Total payload bytes sent.
    pub octet_count: u32,
    /// Last RTP timestamp sent (from actual RTP packets).
    pub last_rtp_timestamp: u32,
    /// The clock of the RTP timestamps.
    pub media_clock: MediaClock,
    /// Last time an RTCP packet was sent.
    pub last_rtcp_time: Option<Instant>,
    /// RTCP emission interval.
    pub rtcp_interval: Duration,
}

impl View for RtcpSenderState {
    type V = RtcpSenderView;

    open spec fn view(&self) -> RtcpSenderView {
        RtcpSenderView {
            ssrc: self.ssrc,
            cname: self.cname@,
            packet_count: self.packet_count,
            octet_count: self.octet_count,
            last_rtp_timestamp: self.last_rtp_timestamp,
            last_rtp_wallclock: self.media_clock@.last_rtp_wallclock,
            rtp_ts_epoch: self.media_clock@.rtp_ts_epoch,
            rtp_ts_epoch_system: self.media_clock@.rtp_ts_epoch_system,
            last_rtcp_time: self.last_rtcp_time,
            rtcp_interval: self.rtcp_interval,
        }
    }
}

impl RtcpSenderState {
    pub fn new(
        ssrc: u32,
        cname: String,
        rtcp_interval: Duration,
        rtp_ts_epoch: Instant,
        rtp_ts_epoch_system: SystemTime,
    ) -> (s: Self)
        ensures
            s@ == (RtcpSenderView {
                ssrc,
                cname: cname@,
                packet_count: 0,
                octet_count: 0,
                last_rtp_timestamp: 0,
                last_rtp_wallclock: None,
                rtp_ts_epoch,
                rtp_ts_epoch_system,
                last_rtcp_time: None,
                rtcp_interval,
            }),
    {
        Self {
            ssrc,
            cname,
            packet_count: 0,
            octet_count: 0,
            last_rtp_timestamp: 0,
            media_clock: MediaClock {
                last_rtp_wallclock: None,
                rtp_ts_epoch,
                rtp_ts_epoch_system,
            },
            last_rtcp_time: None,
            rtcp_interval,
        }
    }

    /// Record that a packet was sent.
    pub fn on_packet_sent(&mut self, payload_size: usize, rtp_timestamp: u32, now: Instant)
        ensures
            final(self)@ == old(self)@.after_packet(payload_size, rtp_timestamp, now),
    {
        self.packet_count = self.packet_count.wrapping_add(1);
        let size: u64 = payload_size as u64;
        self.octet_count = ((self.octet_count as u64 + size % 0x1_0000_0000) % 0x1_0000_0000) as u32;
        self.last_rtp_timestamp = rtp_timestamp;
        self.media_clock.last_rtp_wallclock = Some(now);
    }

    /// Check if it's time to send an RTCP compound packet.
    pub fn should_send_rtcp(&self, now: Instant) -> (b: bool)
        ensures
            b == match self@.last_rtcp_time {
                None => true,
                Some(last) => interval_over(last, self@.rtcp_interval, now),
            },
    {
        match self.last_rtcp_time {
            None => true,
            Some(last) => now.duration_since(last).nanos >= self.rtcp_interval.nanos,
        }
    }

    /// Generate a Sender Report.
    ///
    /// The RTP timestamp in the SR corresponds to the same wall-clock instant
    /// as the NTP timestamp (RFC 3550 Section 6.4.1). Computed from the same
    /// clock base as the RTP data packets.
    pub fn generate_sr(&mut self, now: Instant) -> (sr: SenderReport)
        ensures
            final(self)@ == (RtcpSenderView { last_rtcp_time: Some(now), ..old(self)@ }),
            exists|wall: SystemTime| sr == #[trigger] old(self)@.report(now, wall),
    {
        let wall: SystemTime = SystemTime::now();
        self.generate_sr_at(now, wall)
    }

    /// Generate the Sender Report of the instant `now`, at which the wall
    /// clock shows `wall`.
    pub fn generate_sr_at(&mut self, now: Instant, wall: SystemTime) -> (sr: SenderReport)
        ensures
            final(self)@ == (RtcpSenderView { last_rtcp_time: Some(now), ..old(self)@ }),
            sr == old(self)@.report(now, wall),
    {
        let (ntp_msw, ntp_lsw): (u32, u32) = system_time_to_ntp(wall);
        let rtp_timestamp: u32 = ntp_to_rtp90k(
            self.media_clock.rtp_ts_epoch_system,
            self.media_clock.rtp_ts_epoch,
            now,
        );
        self.last_rtcp_time = Some(now);
        SenderReport {
            ssrc: self.ssrc,
            ntp_msw,
            ntp_lsw,
            rtp_timestamp,
            sender_packet_count: self.packet_count,
            sender_octet_count: self.octet_count,
        }
    }

    /// Generate an SDES packet.
    pub fn generate_sdes(&self) -> (sdes: Sdes)
        ensures
            sdes@ == (SdesView { ssrc: self@.ssrc, cname: self@.cname }),
    {
        Sdes { ssrc: self.ssrc, cname: self.cname.clone() }
    }
}

/// The sequence numbers seen by a receiver.
pub struct SeqTrack {
    /// The first sequence number received.
    pub base: u16,
    /// The highest sequence number received.
    pub max: u16,
    /// How often the sequence numbers have wrapped, modulo 65536.
    pub cycles: u16,
}

impl SeqTrack {
    /// The highest sequence number, extended to 32 bits.
    pub open spec fn extended_max(self) -> u32 {
        (self.cycles * 65_536 + self.max) as u32
    }

    /// How many packets the stream has had from the first to the highest
    /// received, modulo 2^32.
    pub open spec fn expected(self) -> u32 {
        mod32(self.extended_max() - self.base + 1)
    }

    /// The numbers seen after packet `seq`.
    pub open spec fn after(self, seq: u16) -> SeqTrack {
        if serial::diff(self.max, seq) > 0 {
            SeqTrack {
                max: seq,
                cycles: if seq < self.max {
                    ((self.cycles + 1) % 65_536) as u16
                } else {
                    self.cycles
                },
                ..self
            }
        } else {
            self
        }
    }
}

/// What an [`RtcpReceiverState`] holds.
#[verifier::ext_equal]
pub struct RtcpReceiverView {
    pub ssrc: u32,
    pub cname: Seq<char>,
    pub sender_ssrc: Option<u32>,
    /// The sequence numbers seen, from the first packet on.
    pub seqs: Option<SeqTrack>,
    pub packets_received: u32,
    pub expected_prior: u32,
    pub received_prior: u32,
    pub jitter: u32,
    /// The transit time of the last packet that was timed.
    pub last_transit: Option<u32>,
    pub last_sr_ntp: u32,
    pub last_sr_time: Option<Instant>,
    pub last_rtcp_time: Option<Instant>,
    pub rtcp_interval: Duration,
}

/// The 90 kHz clock `us` microseconds after its origin, modulo 2^32.
pub open spec fn ticks_at(us: u64) -> u32 {
    mod32(us * 9 / 100)
}

/// The transit time of a packet in 90 kHz ticks, modulo 2^32.
pub open spec fn transit_of(rtp_timestamp: u32, arrival_time_us: u64) -> u32 {
    mod32(ticks_at(arrival_time_us) - rtp_timestamp)
}

/// How far apart two transit times are: the size of their difference, taken
/// as a signed 32-bit integer.
pub open spec fn transit_change(transit: u32, last: u32) -> u32 {
    let d = mod32(transit - last);
    if d <= 0x8000_0000 {
        d
    } else {
        (0x1_0000_0000 - d) as u32
    }
}

impl RtcpReceiverView {
    /// The state after packet `seq`. A duplicate is neither counted nor timed.
    pub open spec fn after_packet(
        self,
        seq: u16,
        rtp_timestamp: u32,
        arrival_time_us: u64,
        is_duplicate: bool,
    ) -> RtcpReceiverView {
        let seqs = match self.seqs {
            None => SeqTrack { base: seq, max: seq, cycles: 0 },
            Some(t) => t.after(seq),
        };
        if is_duplicate {
            RtcpReceiverView { seqs: Some(seqs), ..self }
        } else {
            RtcpReceiverView {
                seqs: Some(seqs),
                packets_received: mod32(self.packets_received + 1),
                last_transit: Some(transit_of(rtp_timestamp, arrival_time_us)),
                ..self
            }
        }
    }

    /// How far the transit time of a packet is from that of the packet before,
    /// the sample of the jitter estimate (RFC 3550 A.8). There is none for the
    /// first packet that is timed.
    pub open spec fn jitter_sample(
        self,
        rtp_timestamp: u32,
        arrival_time_us: u64,
        is_duplicate: bool,
    ) -> Option<u32> {
        match self.last_transit {
            Some(last) => if is_duplicate {
                None
            } else {
                Some(transit_change(transit_of(rtp_timestamp, arrival_time_us), last))
            },
            None => None,
        }
    }

    /// The share of packets lost since the last report, in 1/256, at most 255.
    pub open spec fn fraction_lost(self) -> u8 {
        let expected = mod32(self.seqs->0.expected() - self.expected_prior);
        let received = mod32(self.packets_received - self.received_prior);
        if received >= expected {
            0
        } else if received == 0 {
            255
        } else {
            ((expected - received) * 256 / expected as int) as u8
        }
    }

    /// The packets lost since the start, clamped to 24 bits; negative where
    /// more arrived than were expected.
    pub open spec fn cumulative_lost(self) -> int {
        let lost = self.seqs->0.expected() - self.packets_received;
        if lost > 8_388_607 {
            8_388_607
        } else if lost < -8_388_608 {
            -8_388_608
        } else {
            lost
        }
    }

    /// The time since the last sender report in 1/65536 s, at most the largest
    /// 32-bit value; zero where there was none.
    pub open spec fn delay_since_last_sr(self, now: Instant) -> u32 {
        match self.last_sr_time {
            None => 0,
            Some(t) => {
                let units = now.duration_since(t).nanos as int * 65_536 / 1_000_000_000;
                if units > u32::MAX {
                    u32::MAX
                } else {
                    units as u32
                }
            },
        }
    }

    /// The report at `now`: empty before the first packet.
    pub open spec fn report(self, now: Instant) -> ReceiverReportView {
        ReceiverReportView {
            ssrc: self.ssrc,
            reports: match self.seqs {
                None => Seq::empty(),
                Some(t) => seq![
                    ReportBlock {
                        ssrc: match self.sender_ssrc {
                            Some(s) => s,
                            None => 0,
                        },
                        fraction_lost: self.fraction_lost(),
                        cumulative_lost: self.cumulative_lost() as i32,
                        extended_highest_seq: t.extended_max(),
                        jitter: self.jitter,
                        last_sr: self.last_sr_ntp,
                        delay_since_last_sr: self.delay_since_last_sr(now),
                    },
                ],
            },
        }
    }

    /// The state after a report at `now`.
    pub open spec fn after_report(self, now: Instant) -> RtcpReceiverView {
        match self.seqs {
            None => RtcpReceiverView { last_rtcp_time: Some(now), ..self },
            Some(t) => RtcpReceiverView {
                last_rtcp_time: Some(now),
                expected_prior: t.expected(),
                received_prior: self.packets_received,
                ..self
            },
        }
    }
}

/// What a [`ReceptionRecord`] holds.
#[verifier::ext_equal]
pub struct ReceptionView {
    pub seqs: Option<SeqTrack>,
    pub expected_prior: u32,
    pub received_prior: u32,
    pub last_transit: Option<u32>,
}

/// What a receiver keeps of the packets it has seen and of its last report.
#[derive(Debug)]
pub struct ReceptionRecord {
    /// Sequence number cycles (how many times we've wrapped around).
    seq_cycles: u16,
    /// Highest 16-bit sequence number received in current cycle.
    max_seq: u16,
    /// Whether we've received the first packet.
    first_packet_received: bool,
    /// The first sequence number received.
    base_seq: u16,
    /// Total packets expected at last RR.
    expected_prior: u32,
    /// Total packets received at last RR.
    received_prior: u32,
    /// Last transit time for jitter calculation.
    last_transit: Option<u32>,
}

impl View for ReceptionRecord {
    type V = ReceptionView;

    closed spec fn view(&self) -> ReceptionView {
        ReceptionView {
            seqs: if self.first_packet_received {
                Some(SeqTrack { base: self.base_seq, max: self.max_seq, cycles: self.seq_cycles })
            } else {
                None
            },
            expected_prior: self.expected_prior,
            received_prior: self.received_prior,
            last_transit: self.last_transit,
        }
    }
}

impl ReceptionRecord {
    /// How many packets the stream has had from the first to the highest
    /// received.
    fn expected(&self) -> (n: u32)
        requires
            self@.seqs is Some,
        ensures
            n == self@.seqs->0.expected(),
    {
        let highest: u32 = self.seq_cycles as u32 * 65_536 + self.max_seq as u32;
        highest.wrapping_sub(self.base_seq as u32).wrapping_add(1)
    }

    /// Starts the interval that the next report is about, once `received`
    /// packets have been received.
    fn start_interval(&mut self, received: u32)
        requires
            old(self)@.seqs is Some,
        ensures
            final(self)@ == (ReceptionView {
                expected_prior: old(self)@.seqs->0.expected(),
                received_prior: received,
                ..old(self)@
            }),
    {
        self.expected_prior = self.expected();
        self.received_prior = received;
    }
}

/// State maintained by a RIST receiver for RTCP generation.
#[derive(Debug)]
pub struct RtcpReceiverState {
    /// Our SSRC.
    pub ssrc: u32,
    /// CNAME for SDES packets.
    pub cname: String,
    /// SSRC of the sender we're receiving from.
    pub sender_ssrc: Option<u32>,
    /// The packets seen, and the last report.
    pub reception: ReceptionRecord,
    /// Total packets received, duplicates not counted.
    pub packets_received: u32,
    /// Interarrival jitter estimate (RFC 3550 A.8) in whole timestamp units,
    /// kept by the caller from the samples that `on_packet` returns.
    pub jitter: u32,
    /// Compact NTP timestamp from last received SR.
    pub last_sr_ntp: u32,
    /// Time when last SR was received.
    pub last_sr_time: Option<Instant>,
    /// Last RTCP send time.
    pub last_rtcp_time: Option<Instant>,
    /// RTCP emission interval.
    pub rtcp_interval: Duration,
}

impl View for RtcpReceiverState {
    type V = RtcpReceiverView;

    open spec fn view(&self) -> RtcpReceiverView {
        RtcpReceiverView {
            ssrc: self.ssrc,
            cname: self.cname@,
            sender_ssrc: self.sender_ssrc,
            seqs: self.reception@.seqs,
            packets_received: self.packets_received,
            expected_prior: self.reception@.expected_prior,
            received_prior: self.reception@.received_prior,
            jitter: self.jitter,
            last_transit: self.reception@.last_transit,
            last_sr_ntp: self.last_sr_ntp,
            last_sr_time: self.last_sr_time,
            last_rtcp_time: self.last_rtcp_time,
            rtcp_interval: self.rtcp_interval,
        }
    }
}

impl RtcpReceiverState {
    pub fn new(ssrc: u32, cname: String, rtcp_interval: Duration) -> (s: Self)
        ensures
            s@ == (RtcpReceiverView {
                ssrc,
                cname: cname@,
                sender_ssrc: None,
                seqs: None,
                packets_received: 0,
                expected_prior: 0,
                received_prior: 0,
                jitter: 0,
                last_transit: None,
                last_sr_ntp: 0,
                last_sr_time: None,
                last_rtcp_time: None,
                rtcp_interval,
            }),
    {
        Self {
            ssrc,
            cname,
            sender_ssrc: None,
            reception: ReceptionRecord {
                seq_cycles: 0,
                max_seq: 0,
                first_packet_received: false,
                base_seq: 0,
                expected_prior: 0,
                received_prior: 0,
                last_transit: None,
            },
            packets_received: 0,
            jitter: 0,
            last_sr_ntp: 0,
            last_sr_time: None,
            last_rtcp_time: None,
            rtcp_interval,
        }
    }

    /// SSRC of the sender we're receiving from, once it has reported.
    pub fn sender_ssrc(&self) -> (s: Option<u32>)
        ensures
            s == self@.sender_ssrc,
    {
        self.sender_ssrc
    }

    /// Highest 16-bit sequence number received, 0 before the first packet.
    pub fn max_seq(&self) -> (s: u16)
        ensures
            s == match self@.seqs {
                Some(t) => t.max,
                None => 0,
            },
    {
        if self.reception.first_packet_received {
            self.reception.max_seq
        } else {
            0
        }
    }

    /// Highest sequence number received, extended to 32 bits for cycle
    /// counting, 0 before the first packet.
    pub fn extended_max_seq(&self) -> (s: u32)
        ensures
            s == match self@.seqs {
                Some(t) => t.extended_max(),
                None => 0,
            },
    {
        if self.reception.first_packet_received {
            self.reception.seq_cycles as u32 * 65_536 + self.reception.max_seq as u32
        } else {
            0
        }
    }

    /// Update state when an RTP packet is received.
    /// `seq` is the 16-bit RTP sequence number.
    /// `rtp_timestamp` is the RTP timestamp from the packet.
    /// `arrival_time_us` is the local arrival time in microseconds (monotonic).
    /// Returns the sample for the jitter estimate, if there is one.
    pub fn on_packet_received(&mut self, seq: u16, rtp_timestamp: u32, arrival_time_us: u64) -> (d:
        Option<u32>)
        ensures
            final(self)@ == old(self)@.after_packet(seq, rtp_timestamp, arrival_time_us, false),
            d == old(self)@.jitter_sample(rtp_timestamp, arrival_time_us, false),
    {
        self.on_packet(seq, rtp_timestamp, arrival_time_us, false)
    }

    /// Update state when an RTP packet is received that may be a duplicate.
    /// Duplicates are kept out of the received count and of the jitter
    /// estimate. Returns the sample for the latter, if there is one.
    pub fn on_packet(
        &mut self,
        seq: u16,
        rtp_timestamp: u32,
        arrival_time_us: u64,
        is_duplicate: bool,
    ) -> (d: Option<u32>)
        ensures
            final(self)@ == old(self)@.after_packet(
                seq,
                rtp_timestamp,
                arrival_time_us,
                is_duplicate,
            ),
            d == old(self)@.jitter_sample(rtp_timestamp, arrival_time_us, is_duplicate),
    {
        if !self.reception.first_packet_received {
            self.reception.first_packet_received = true;
            self.reception.base_seq = seq;
            self.reception.max_seq = seq;
            self.reception.seq_cycles = 0;
        } else if serial::signed_distance(self.reception.max_seq, seq) > 0 {
            if seq < self.reception.max_seq {
                self.reception.seq_cycles = self.reception.seq_cycles.wrapping_add(1);
            }
            self.reception.max_seq = seq;
        }
        if is_duplicate {
            return None;
        }
        self.packets_received = self.packets_received.wrapping_add(1);
        let ticks: u128 = arrival_time_us as u128 * 9 / 100;
        let arrival_rtp: u32 = (ticks % 0x1_0000_0000) as u32;
        let transit: u32 = arrival_rtp.wrapping_sub(rtp_timestamp);
        let last: Option<u32> = self.reception.last_transit;
        self.reception.last_transit = Some(transit);
        match last {
            None => None,
            Some(last) => {
                let d: u32 = transit.wrapping_sub(last);
                if d <= 0x8000_0000 {
                    Some(d)
                } else {
                    Some(last.wrapping_sub(transit))
                }
            },
        }
    }

    /// Record receipt of a Sender Report.
    pub fn on_sr_received(&mut self, sr: &SenderReport, now: Instant)
        ensures
            final(self)@ == (RtcpReceiverView {
                sender_ssrc: Some(sr.ssrc),
                last_sr_ntp: sr.middle_ntp() as u32,
                last_sr_time: Some(now),
                ..old(self)@
            }),
    {
        self.sender_ssrc = Some(sr.ssrc);
        self.last_sr_ntp = sr.compact_ntp();
        self.last_sr_time = Some(now);
    }

    /// Takes over the caller's jitter estimate, in whole timestamp units.
    pub fn set_jitter(&mut self, jitter: u32)
        ensures
            final(self)@ == (RtcpReceiverView { jitter, ..old(self)@ }),
    {
        self.jitter = jitter;
    }

    /// Check if it's time to send an RTCP compound packet.
    pub fn should_send_rtcp(&self, now: Instant) -> (b: bool)
        ensures
            b == match self@.last_rtcp_time {
                None => self@.seqs is Some,
                Some(last) => interval_over(last, self@.rtcp_interval, now),
            },
    {
        match self.last_rtcp_time {
            None => self.reception.first_packet_received,
            Some(last) => now.duration_since(last).nanos >= self.rtcp_interval.nanos,
        }
    }

    /// The share of packets lost since the last report, in 1/256.
    fn lost_fraction(&self) -> (share: u8)
        requires
            self@.seqs is Some,
        ensures
            share == self@.fraction_lost(),
    {
        let expected: u32 = self.reception.expected();
        let expected_interval: u32 = expected.wrapping_sub(self.reception.expected_prior);
        let received_interval: u32 = self.packets_received.wrapping_sub(
            self.reception.received_prior,
        );
        if received_interval >= expected_interval {
            0
        } else if received_interval == 0 {
            255
        } else {
            share_of_256(expected_interval - received_interval, expected_interval)
        }
    }

    /// The packets lost since the start, clamped to 24 bits.
    fn lost_in_total(&self) -> (lost: i32)
        requires
            self@.seqs is Some,
        ensures
            lost == self@.cumulative_lost(),
    {
        let lost: i64 = self.reception.expected() as i64 - self.packets_received as i64;
        if lost > 8_388_607 {
            8_388_607
        } else if lost < -8_388_608 {
            -8_388_608
        } else {
            lost as i32
        }
    }

    /// Generate a Receiver Report with one report block, or an empty one
    /// before the first packet.
    pub fn generate_rr(&mut self, now: Instant) -> (rr: ReceiverReport)
        ensures
            final(self)@ == old(self)@.after_report(now),
            rr@ == old(self)@.report(now),
    {
        let extended_highest_seq: u32 = self.extended_max_seq();
        if !self.reception.first_packet_received {
            self.last_rtcp_time = Some(now);
            return ReceiverReport::empty(self.ssrc);
        }
        let fraction_lost: u8 = self.lost_fraction();
        let cumulative_lost: i32 = self.lost_in_total();
        let delay_since_last_sr: u32 = match self.last_sr_time {
            Some(sr_time) => in_65536ths(now.duration_since(sr_time)),
            None => 0,
        };
        let sender_ssrc: u32 = match self.sender_ssrc {
            Some(s) => s,
            None => 0,
        };
        let mut reports: Vec<ReportBlock> = Vec::new();
        reports.push(
            ReportBlock {
                ssrc: sender_ssrc,
                fraction_lost,
                cumulative_lost,
                extended_highest_seq,
                jitter: self.jitter,
                last_sr: self.last_sr_ntp,
                delay_since_last_sr,
            },
        );
        self.last_rtcp_time = Some(now);
        self.reception.start_interval(self.packets_received);
        let rr = ReceiverReport { ssrc: self.ssrc, reports };
        assert(rr@.reports =~= old(self)@.report(now).reports);
        rr
    }

    /// Generate an SDES packet.
    pub fn generate_sdes(&self) -> (sdes: Sdes)
        ensures
            sdes@ == (SdesView { ssrc: self@.ssrc, cname: self@.cname }),
    {
        Sdes { ssrc: self.ssrc, cname: self.cname.clone() }
    }
}

/// The share that `part` is of `whole`, in 1/256, rounded down.
fn share_of_256(part: u32, whole: u32) -> (share: u8)
    requires
        part < whole,
    ensures
        share == part as int * 256 / whole as int,
{
    let scaled: u64 = part as u64 * 256;
    let q: u64 = scaled / whole as u64;
    assert(q < 256) by (nonlinear_arith)
        requires
            q == scaled as int / (whole as int),
            scaled == part * 256,
            part < whole,
    ;
    q as u8
}

/// A span in units of 1/65536 s, rounded down, at most the largest 32-bit value.
fn in_65536ths(span: Duration) -> (units: u32)
    ensures
        units == (if span.nanos as int * 65_536 / 1_000_000_000 > u32::MAX {
            u32::MAX as int
        } else {
            span.nanos as int * 65_536 / 1_000_000_000
        }),
{
    // A span of 65536 s and more has no representation.
    if span.nanos >= 65_536_000_000_000 {
        return u32::MAX;
    }
    (span.nanos * 65_536 / 1_000_000_000) as u32
}

/// Sender reports and data packets tell the same time: a report made at `now`
/// carries the timestamp that a packet sent at `now` would carry.
pub proof fn law_report_and_media_share_a_clock(v: RtcpSenderView, now: Instant, wall: SystemTime)
    ensures
        v.report(now, wall).rtp_timestamp == rtp_clock(
            v.rtp_ts_epoch_system,
            v.rtp_ts_epoch,
            now,
        ),
{
}

/// A report resets the interval that the next fraction is counted over: right
/// after a report, nothing is lost since.
pub proof fn law_report_starts_a_new_interval(v: RtcpReceiverView, now: Instant)
    requires
        v.seqs is Some,
    ensures
        v.after_report(now).fraction_lost() == 0,
        v.after_report(now).cumulative_lost() == v.cumulative_lost(),
{
}

/// A duplicate changes no count that a report is made from.
pub proof fn law_duplicates_do_not_count(
    v: RtcpReceiverView,
    seq: u16,
    rtp_timestamp: u32,
    arrival_time_us: u64,
)
    requires
        v.seqs is Some,
        serial::diff(v.seqs->0.max, seq) <= 0,
    ensures
        v.after_packet(seq, rtp_timestamp, arrival_time_us, true) == v,
        v.jitter_sample(rtp_timestamp, arrival_time_us, true) is None,
{
}

/// A stream without loss reports none: as long as each packet follows the one
/// before, as many are received as expected.
pub proof fn law_unbroken_stream_has_no_loss(
    v: RtcpReceiverView,
    rtp_timestamp: u32,
    arrival_time_us: u64,
)
    requires
        v.seqs is Some,
        v.seqs->0.expected() == v.packets_received,
    ensures
        ({
            let next = v.after_packet(
                serial::plus(v.seqs->0.max, 1),
                rtp_timestamp,
                arrival_time_us,
                false,
            );
            &&& next.seqs->0.expected() == next.packets_received
            &&& next.cumulative_lost() == 0
        }),
{
}

/// The fraction lost is that of the packets expected since the last report:
/// with `expected` of them and `received` fewer than that, it is the whole part
/// of 256 times the share that is missing, but 255 where none came.
pub proof fn law_fraction_is_of_the_interval(v: RtcpReceiverView)
    requires
        v.seqs is Some,
    ensures
        ({
            let expected = (v.seqs->0.expected() - v.expected_prior) % 0x1_0000_0000;
            let received = (v.packets_received - v.received_prior) % 0x1_0000_0000;
            let lost = v.fraction_lost() as int;
            &&& received >= expected ==> lost == 0
            &&& received == 0 && expected > 0 ==> lost == 255
            &&& 0 < received < expected ==> lost * expected <= 256 * (expected - received) < (lost
                + 1) * expected
        }),
{
    let expected = (v.seqs->0.expected() - v.expected_prior) % 0x1_0000_0000;
    let received = (v.packets_received - v.received_prior) % 0x1_0000_0000;
    if 0 < received < expected {
        let scaled = (expected - received) * 256;
        let q = scaled / expected;
        vstd::arithmetic::div_mod::lemma_fundamental_div_mod(scaled, expected);
        vstd::arithmetic::div_mod::lemma_mod_bound(scaled, expected);
        assert(q * expected <= scaled < (q + 1) * expected) by (nonlinear_arith)
            requires
                scaled == expected * q + scaled % expected,
                0 <= scaled % expected < expected,
        ;
        assert(0 <= q < 256) by (nonlinear_arith)
            requires
                q * expected <= scaled < (q + 1) * expected,
                0 < scaled < 256 * expected,
                expected > 0,
        ;
    }
}

/// The interval of a report starts where the last report was made: with the
/// packets expected and received until then. Packets do not move its start.
pub proof fn law_interval_starts_at_the_last_report(
    v: RtcpReceiverView,
    now: Instant,
    seq: u16,
    rtp_timestamp: u32,
    arrival_time_us: u64,
    is_duplicate: bool,
)
    requires
        v.seqs is Some,
    ensures
        v.after_report(now).expected_prior == v.seqs->0.expected(),
        v.after_report(now).received_prior == v.packets_received,
        v.after_report(now).packets_received == v.packets_received,
        v.after_report(now).seqs == v.seqs,
        ({
            let next = v.after_packet(seq, rtp_timestamp, arrival_time_us, is_duplicate);
            &&& next.expected_prior == v.expected_prior
            &&& next.received_prior == v.received_prior
            &&& is_duplicate ==> next.packets_received == v.packets_received
            &&& !is_duplicate ==> next.packets_received == (v.packets_received + 1)
                % 0x1_0000_0000
        }),
{
}

/// The stream is expected to have as many packets as there are numbers from
/// the first to the highest: one after the first packet, and as many more as a
/// later packet lies ahead of the highest. The extended highest number counts
/// the same way.
pub proof fn law_expected_counts_the_numbers(
    v: RtcpReceiverView,
    seq: u16,
    rtp_timestamp: u32,
    arrival_time_us: u64,
    is_duplicate: bool,
    steps: int,
)
    requires
        -32_768 <= steps <= 32_767,
        v.seqs matches Some(t) ==> (t.max + steps) % 65_536 == seq,
    ensures
        ({
            let after = v.after_packet(seq, rtp_timestamp, arrival_time_us, is_duplicate).seqs;
            &&& after is Some
            &&& v.seqs is None ==> after->0.expected() == 1 && after->0.extended_max() == seq
            &&& v.seqs is Some ==> {
                let more = if steps > 0 {
                    steps
                } else {
                    0
                };
                &&& after->0.expected() == (v.seqs->0.expected() + more) % 0x1_0000_0000
                &&& after->0.extended_max() == (v.seqs->0.extended_max() + more) % 0x1_0000_0000
                &&& after->0.base == v.seqs->0.base
            }
        }),
{
    if v.seqs is Some {
        lemma_track_moves(v.seqs->0, seq, steps);
    }
}

/// A packet `steps` ahead of the highest moves the highest that far.
proof fn lemma_track_moves(t: SeqTrack, seq: u16, steps: int)
    requires
        -32_768 <= steps <= 32_767,
        (t.max + steps) % 65_536 == seq,
    ensures
        steps <= 0 ==> t.after(seq) == t,
        steps > 0 ==> t.after(seq).base == t.base && t.after(seq).extended_max() == (
        t.extended_max() + steps) % 0x1_0000_0000 && t.after(seq).expected() == (t.expected()
            + steps) % 0x1_0000_0000,
        t.expected() == t.expected() as int % 0x1_0000_0000,
        t.extended_max() == t.extended_max() as int % 0x1_0000_0000,
{
    lemma_signed_steps(t.max, seq, steps);
    if steps > 0 {
        let after = t.after(seq);
        let x = t.cycles * 65_536 + t.max;
        let y = after.cycles * 65_536 + after.max;
        assert(y == x + steps || y == x + steps - 0x1_0000_0000) by {
            if t.max + steps < 65_536 {
                assert(seq == t.max + steps);
            } else {
                assert(seq == t.max + steps - 65_536);
            }
        }
        lemma_shifted(x - t.base + 1, steps);
        lemma_shifted(y - t.base + 1, 0);
        assert((x + steps - t.base + 1) % 0x1_0000_0000 == (y - t.base + 1) % 0x1_0000_0000);
    }
}

proof fn lemma_signed_steps(from: u16, to: u16, steps: int)
    requires
        -32_768 <= steps <= 32_767,
        (from + steps) % 65_536 == to,
    ensures
        serial::diff(from, to) == steps,
{
}

proof fn lemma_shifted(n: int, k: int)
    ensures
        (n % 0x1_0000_0000 + k) % 0x1_0000_0000 == (n + k) % 0x1_0000_0000,
{
}

proof fn lemma_same_shift(a: int, b: int, k: int)
    ensures
        ((a + k) % 0x1_0000_0000 - (b + k) % 0x1_0000_0000) % 0x1_0000_0000 == (a - b)
            % 0x1_0000_0000,
{
}

/// The count of lost packets is what was expected less what was received,
/// negative where more came, and kept within 24 bits.
pub proof fn law_total_loss_is_the_difference(v: RtcpReceiverView)
    requires
        v.seqs is Some,
    ensures
        ({
            let lost = v.seqs->0.expected() - v.packets_received;
            &&& -8_388_608 <= lost <= 8_388_607 ==> v.cumulative_lost() == lost
            &&& lost > 8_388_607 ==> v.cumulative_lost() == 8_388_607
            &&& lost < -8_388_608 ==> v.cumulative_lost() == -8_388_608
        }),
{
}

/// A report shows what the state holds: for the source that reports, the loss,
/// the highest number and the jitter, and the last sender report.
pub proof fn law_report_shows_the_state(v: RtcpReceiverView, now: Instant)
    ensures
        v.report(now).ssrc == v.ssrc,
        v.seqs is None ==> v.report(now).reports.len() == 0,
        v.seqs matches Some(t) ==> {
            let b = v.report(now).reports[0];
            &&& v.report(now).reports.len() == 1
            &&& b.ssrc == if v.sender_ssrc is Some {
                v.sender_ssrc->0
            } else {
                0
            }
            &&& b.fraction_lost == v.fraction_lost()
            &&& b.cumulative_lost == v.cumulative_lost()
            &&& b.extended_highest_seq == t.cycles * 65_536 + t.max
            &&& b.jitter == v.jitter
            &&& b.last_sr == v.last_sr_ntp
            &&& b.delay_since_last_sr == v.delay_since_last_sr(now)
        },
{
}

/// The time since the last sender report is counted in whole units of 1/65536 s.
pub proof fn law_delay_counts_65536ths(v: RtcpReceiverView, heard: Instant, now: Instant)
    requires
        v.last_sr_time == Some(heard),
        heard.nanos <= now.nanos,
        now.nanos - heard.nanos < 65_536_000_000_000,
    ensures
        ({
            let units = v.delay_since_last_sr(now) as int;
            units * 1_000_000_000 <= (now.nanos - heard.nanos) * 65_536 < (units + 1)
                * 1_000_000_000
        }),
{
}

/// Before a sender report there is no delay to report, and one too long for
/// its field is the longest.
pub proof fn law_delay_at_the_ends(v: RtcpReceiverView, heard: Instant, now: Instant)
    ensures
        v.last_sr_time is None ==> v.delay_since_last_sr(now) == 0,
        v.last_sr_time == Some(heard) && now.nanos >= heard.nanos + 65_536_000_000_000
            ==> v.delay_since_last_sr(now) == u32::MAX,
{
}

/// The arrival clock counts the ninety ticks of each millisecond, in whole
/// ticks and modulo 2^32.
pub proof fn law_arrival_clock_runs_at_90_khz(us: u64, ms: u64)
    requires
        us + ms * 1_000 <= u64::MAX,
    ensures
        us * 9 / 100 < 0x1_0000_0000 ==> 100 * ticks_at(us) <= 9 * us < 100 * (ticks_at(us) + 1),
        ticks_at((us + ms * 1_000) as u64) == (ticks_at(us) + ms * 90) % 0x1_0000_0000,
{
}

/// A packet whose transit takes `change` ticks longer than the one before, or
/// shorter for a negative `change`, gives a sample of that size.
pub proof fn law_jitter_sample_is_the_change(
    v: RtcpReceiverView,
    rtp_timestamp: u32,
    arrival_time_us: u64,
    change: int,
)
    requires
        v.last_transit is Some,
        -0x8000_0000 <= change <= 0x8000_0000,
        (ticks_at(arrival_time_us) - rtp_timestamp - v.last_transit->0 - change) % 0x1_0000_0000
            == 0,
    ensures
        v.jitter_sample(rtp_timestamp, arrival_time_us, false) == Some(
            (if change >= 0 {
                change
            } else {
                -change
            }) as u32,
        ),
{
}

/// A stream whose timestamps keep pace with the clock has no jitter: a packet
/// sent so many milliseconds after another, and arriving as many later, gives a
/// sample of zero. The first packet that is timed, and duplicates, give none.
pub proof fn law_steady_stream_has_no_jitter(
    v: RtcpReceiverView,
    seq: u16,
    rtp_timestamp: u32,
    arrival_time_us: u64,
    ms: u64,
)
    requires
        arrival_time_us + ms * 1_000 <= u64::MAX,
    ensures
        ({
            let timed = v.after_packet(seq, rtp_timestamp, arrival_time_us, false);
            let later = (arrival_time_us + ms * 1_000) as u64;
            let stamp = ((rtp_timestamp + ms * 90) % 0x1_0000_0000) as u32;
            &&& timed.jitter_sample(stamp, later, false) == Some(0u32)
            &&& timed.jitter_sample(stamp, later, true) is None
        }),
        v.last_transit is None ==> v.jitter_sample(rtp_timestamp, arrival_time_us, false) is None,
        v.after_packet(seq, rtp_timestamp, arrival_time_us, true).last_transit == v.last_transit,
{
    law_arrival_clock_runs_at_90_khz(arrival_time_us, ms);
    lemma_same_shift(ticks_at(arrival_time_us) as int, rtp_timestamp as int, ms * 90);
    let later = (arrival_time_us + ms * 1_000) as u64;
    let stamp = ((rtp_timestamp + ms * 90) % 0x1_0000_0000) as u32;
    assert(transit_of(stamp, later) == transit_of(rtp_timestamp, arrival_time_us));
}

/// A report is due as soon as the interval has passed since the last one.
pub proof fn law_interval_is_kept(last: Instant, interval: Duration, now: Instant)
    requires
        interval.nanos > 0,
    ensures
        interval_over(last, interval, now) <==> now.nanos >= last.nanos + interval.nanos,
{
}

/// An NTP timestamp is the time since 1900 in units of 2^-32 s, modulo 2^64.
pub proof fn law_ntp_counts_from_1900(time: SystemTime)
    ensures
        ({
            let nanos = time.since_unix.nanos + 2_208_988_800 * 1_000_000_000;
            let ntp = ntp_of(time).0 * 0x1_0000_0000 + ntp_of(time).1;
            ntp == nanos * 0x1_0000_0000 / 1_000_000_000 % 0x1_0000_0000_0000_0000
        }),
{
    let n = time.since_unix.nanos as int;
    let secs = n / 1_000_000_000 + 2_208_988_800;
    let frac = n % 1_000_000_000;
    let nanos = n + 2_208_988_800 * 1_000_000_000;
    let low = frac * 0x1_0000_0000 / 1_000_000_000;
    assert(nanos == secs * 1_000_000_000 + frac);
    assert(nanos * 0x1_0000_0000 / 1_000_000_000 == secs * 0x1_0000_0000 + low);
    assert((secs * 0x1_0000_0000 + low) % 0x1_0000_0000_0000_0000 == secs % 0x1_0000_0000
        * 0x1_0000_0000 + low);
}

/// The media clock gains ninety ticks each millisecond, modulo 2^32; where it
/// is set it shows the NTP time in ticks of 90 kHz.
pub proof fn law_media_clock_runs_at_90_khz(
    epoch_system: SystemTime,
    epoch: Instant,
    now: Instant,
    ms: u64,
)
    requires
        epoch.nanos <= now.nanos,
        now.nanos + ms * 1_000_000 <= u128::MAX,
    ensures
        rtp_clock(
            epoch_system,
            epoch,
            Instant { nanos: (now.nanos + ms * 1_000_000) as u128 },
        ) == (rtp_clock(epoch_system, epoch, now) + ms * 90) % 0x1_0000_0000,
        epoch_system.since_unix.nanos as int % 1_000_000_000 == 0 ==> rtp_clock(
            epoch_system,
            epoch,
            epoch,
        ) == (epoch_system.since_unix.nanos as int / 1_000_000_000 + 2_208_988_800) * 90_000
            % 0x1_0000_0000,
{
    let e = epoch_system.since_unix.nanos as int;
    let a = now.nanos - epoch.nanos;
    let x = e / 1_000 + 2_208_988_800 * 1_000_000 + a / 1_000;
    lemma_whole_micros(a, ms as int);
    lemma_ticks_gained(x, ms as int);
    lemma_wraps_32(x * 90 / 1_000, ms * 90);
    if e % 1_000_000_000 == 0 {
        lemma_ticks_of_seconds(e / 1_000_000_000, e);
    }
}

proof fn lemma_whole_micros(nanos: int, ms: int)
    ensures
        (nanos + ms * 1_000_000) / 1_000 == nanos / 1_000 + ms * 1_000,
{
}

proof fn lemma_ticks_gained(us: int, ms: int)
    ensures
        (us + ms * 1_000) * 90 / 1_000 == us * 90 / 1_000 + ms * 90,
{
}

proof fn lemma_wraps_32(n: int, k: int)
    ensures
        (n + k) % 0x1_0000_0000 == (n % 0x1_0000_0000 + k) % 0x1_0000_0000,
{
}

proof fn lemma_ticks_of_seconds(secs: int, nanos: int)
    requires
        nanos == secs * 1_000_000_000,
    ensures
        (nanos / 1_000 + 2_208_988_800 * 1_000_000) * 90 / 1_000 == (secs + 2_208_988_800) * 90_000,
{
}

/// A sender report shows the wall clock, the media clock, and what has been
/// sent; a packet adds one to the packets and its payload to the octets.
pub proof fn law_sender_report_shows_the_state(
    v: RtcpSenderView,
    payload_size: usize,
    rtp_timestamp: u32,
    now: Instant,
    wall: SystemTime,
)
    ensures
        ({
            let sr = v.report(now, wall);
            let next = v.after_packet(payload_size, rtp_timestamp, now);
            &&& sr.ssrc == v.ssrc
            &&& (sr.ntp_msw, sr.ntp_lsw) == ntp_of(wall)
            &&& sr.rtp_timestamp == rtp_clock(v.rtp_ts_epoch_system, v.rtp_ts_epoch, now)
            &&& sr.sender_packet_count == v.packet_count
            &&& sr.sender_octet_count == v.octet_count
            &&& next.packet_count == (v.packet_count + 1) % 0x1_0000_0000
            &&& next.octet_count == (v.octet_count + payload_size) % 0x1_0000_0000
            &&& next.last_rtp_timestamp == rtp_timestamp
            &&& next.rtp_ts_epoch == v.rtp_ts_epoch
            &&& next.rtp_ts_epoch_system == v.rtp_ts_epoch_system
        }),
{
}

} // verus!
