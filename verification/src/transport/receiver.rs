//! RIST receiver session.
//!
//! The receiving side runs the RTCP receiver state, the NACK scheduler and the
//! RTT estimator. Media goes into a reorder buffer that the delivery side
//! drains: packets are held so that NACK-driven retransmits have a chance to
//! fill gaps, then released in strict RTP sequence order. Gaps that age past
//! the hold budget are dropped and counted as lost.
//!
//! The two sides share the reorder buffer and nothing else, so a caller can
//! run them on two threads.

use bytes::{Bytes, BytesMut};
use vstd::prelude::*;

use crate::octets;
use crate::packet::nack_cover;
use crate::packet::rtcp;
use crate::packet::rtcp::{RtcpCompound, RtcpPacket, RtcpPacketView};
use crate::packet::rtcp_app::{RistApp, RistAppView, RttEchoRequest, RttEchoResponse};
use crate::packet::rtcp_nack;
use crate::packet::rtcp_nack::{NackEntriesView, NackListBuilder, NackPacketView};
use crate::packet::rtcp_sdes::SdesView;
use crate::packet::rtp::{RtpPacket, RtpPacketView};
use crate::protocol::nack_tracker;
use crate::protocol::nack_tracker::{NackScheduler, NackView};
use crate::protocol::reorder;
use crate::protocol::reorder::{DrainItem, DrainItemView, InsertOutcome, ReorderBuffer, ReorderView};
use crate::protocol::rtcp_state::{RtcpReceiverState, RtcpReceiverView};
use crate::protocol::rtt::{RttEstimator, RttView};
use crate::time::{Duration, Instant};
use crate::transport::channel;
use crate::transport::config::RistSocketConfig;
use crate::transport::guard;
use crate::transport::net::{IpAddr, SocketAddr};
use crate::transport::random;
use crate::transport::sender;
use crate::transport::sender::SenderView;
use crate::transport::stats;
use crate::transport::stats::RistConnStats;

verus! {

broadcast use {octets::lemma_be16_len, octets::lemma_be32_len};

/// Lower bound for the NACK retry delay in milliseconds, so we never spam.
/// RTT-driven delay wins when we have a sample; otherwise we fall back to this.
pub const MIN_NACK_RETRY_DELAY_MS: u64 = 20;

/// Delay in milliseconds before a lost packet is first asked for, while no RTT
/// is known.
pub const FIRST_NACK_DELAY_MS: u64 = 50;

/// A parsed RTP media packet awaiting insert into the reorder buffer.
#[derive(Debug)]
pub struct ParsedRtp {
    pub seq: u16,
    pub rtp_ts: u32,
    pub payload: Bytes,
    /// When the packet arrived, in microseconds of the session's clock.
    pub arrival_us: u64,
    pub payload_len: usize,
    pub is_retransmit: bool,
    /// The media source, without the retransmit flag.
    pub media_ssrc: u32,
}

/// A [`ParsedRtp`] with its payload as a sequence of bytes.
#[verifier::ext_equal]
pub struct ParsedRtpView {
    pub seq: u16,
    pub rtp_ts: u32,
    pub payload: Seq<u8>,
    pub arrival_us: u64,
    pub is_retransmit: bool,
    pub media_ssrc: u32,
}

impl View for ParsedRtp {
    type V = ParsedRtpView;

    open spec fn view(&self) -> ParsedRtpView {
        ParsedRtpView {
            seq: self.seq,
            rtp_ts: self.rtp_ts,
            payload: octets::content(self.payload),
            arrival_us: self.arrival_us,
            is_retransmit: self.is_retransmit,
            media_ssrc: self.media_ssrc,
        }
    }
}

impl ParsedRtp {
    /// The length stands for the payload's.
    pub open spec fn wf(&self) -> bool {
        self.payload_len == octets::content(self.payload).len()
    }
}

/// The media packet in datagram `s`, if it is one.
pub open spec fn media_in(s: Seq<u8>, arrival_us: u64) -> Option<ParsedRtpView> {
    match RtpPacketView::parsed(s) {
        Err(_) => None,
        Ok(packet) => Some(
            ParsedRtpView {
                seq: packet.header.sequence_number,
                rtp_ts: packet.header.timestamp,
                payload: packet.payload,
                arrival_us,
                is_retransmit: packet.header.ssrc % 2 == 1,
                media_ssrc: (packet.header.ssrc / 2 * 2) as u32,
            },
        ),
    }
}

/// Parse one RTP datagram that arrived at `arrival_us`: validate the header
/// and copy the payload, which starts after the CSRC list and the extension
/// header. Returns None on a malformed or short datagram.
pub fn parse_rtp(buf: &[u8], arrival_us: u64) -> (r: Option<ParsedRtp>)
    ensures
        match r {
            Some(p) => p.wf() && media_in(buf@, arrival_us) == Some(p@),
            None => media_in(buf@, arrival_us) is None,
        },
{
    let packet: RtpPacket = match RtpPacket::parse(buf) {
        Ok(packet) => packet,
        Err(_) => {
            return None;
        },
    };
    let payload_len: usize = octets::octet_slice(&packet.payload).len();
    Some(
        ParsedRtp {
            seq: packet.header.sequence_number,
            rtp_ts: packet.header.timestamp,
            payload: packet.payload,
            arrival_us,
            payload_len,
            is_retransmit: packet.header.is_retransmit(),
            media_ssrc: random::even_ssrc(packet.header.ssrc),
        },
    )
}

/// A packet delivered to the application by the receiver, in RTP seq order.
#[derive(Debug)]
pub struct RistDelivered {
    /// RTP payload (header stripped): the MPEG-TS bytes.
    pub data: Bytes,
    /// When the packet arrived, before the reorder hold.
    pub arrival: Instant,
    /// Wire RTP sequence number, shared across 2022-7 redundant legs.
    pub rtp_seq: u16,
}

impl View for RistDelivered {
    type V = DrainItemView;

    open spec fn view(&self) -> DrainItemView {
        DrainItemView::Delivered {
            data: octets::content(self.data),
            seq: self.rtp_seq,
            arrival: self.arrival,
        }
    }
}

impl Clone for RistDelivered {
    fn clone(&self) -> (d: Self)
        ensures
            d@ == self@,
    {
        RistDelivered {
            data: self.data.clone(),
            arrival: self.arrival,
            rtp_seq: self.rtp_seq,
        }
    }
}

/// The packets among drained items.
pub open spec fn delivered(items: Seq<DrainItemView>) -> Seq<DrainItemView>
    decreases items.len(),
{
    if items.len() == 0 {
        Seq::empty()
    } else if items.last() is Delivered {
        delivered(items.drop_last()).push(items.last())
    } else {
        delivered(items.drop_last())
    }
}

/// What the delivery side is to do next.
#[derive(Debug)]
pub enum DrainStep {
    /// Hand these packets on, in order; `lost` others did not arrive in time.
    Deliver { packets: Vec<RistDelivered>, lost: u64 },
    /// Nothing is buffered: wait for a packet.
    Park,
    /// Nothing is due before `deadline`: wait until then, or for a packet.
    WaitUntil { deadline: Instant },
}

/// The views of delivered packets.
pub open spec fn delivered_views(packets: Seq<RistDelivered>) -> Seq<DrainItemView> {
    packets.map_values(|p: RistDelivered| p@)
}

/// One step of the delivery side at `now`: takes what is due from the buffer,
/// or says how long to wait.
pub fn drain_step(buffer: &mut ReorderBuffer, now: Instant) -> (step: DrainStep)
    requires
        old(buffer).wf(),
    ensures
        final(buffer).wf(),
        final(buffer)@ == old(buffer)@.after_drain(now),
        ({
            let items = old(buffer)@.drained(now);
            match step {
                DrainStep::Deliver { packets, lost } => {
                    &&& items.len() > 0
                    &&& delivered_views(packets@) == delivered(items)
                    &&& packets@.len() + lost == items.len()
                },
                DrainStep::Park => items.len() == 0 && old(buffer)@.window.len() == 0,
                DrainStep::WaitUntil { deadline } => {
                    &&& items.len() == 0
                    &&& old(buffer)@.window.len() > 0
                    &&& deadline == old(buffer)@.window[0].held_since().after(
                        old(buffer)@.buffer_time,
                    )
                },
            }
        }),
{
    let mut items: Vec<DrainItem> = Vec::new();
    buffer.drain_ready(now, &mut items);
    let ghost due = old(buffer)@.drained(now);
    proof {
        assert(reorder::drain_views(Seq::<DrainItem>::empty()) + due =~= due);
        assert(reorder::drain_views(items@).len() == items@.len());
    }
    if items.len() == 0 {
        proof {
            assert(old(buffer)@.due_count(now) == 0);
            assert(old(buffer)@.window.skip(0) =~= old(buffer)@.window);
        }
        return match buffer.next_drain_time() {
            None => DrainStep::Park,
            Some(deadline) => DrainStep::WaitUntil { deadline },
        };
    }
    let (packets, lost) = sort_out(items);
    DrainStep::Deliver { packets, lost }
}

/// How many of the packets offered to the consumer were refused.
pub open spec fn refusals(accepted: Seq<bool>) -> nat
    decreases accepted.len(),
{
    if accepted.len() == 0 {
        0
    } else {
        refusals(accepted.drop_last()) + if accepted.last() {
            0nat
        } else {
            1
        }
    }
}

/// Counts what came of a delivery: `lost` packets never came in, and of those
/// offered to the consumer, in order, it took the ones that are `accepted`. A
/// packet that a slow consumer refuses is dropped, and is no loss on the
/// network. Returns how many were dropped.
pub fn count_delivery(counters: &mut RistConnStats, lost: u64, accepted: &[bool]) -> (dropped: u64)
    ensures
        dropped == refusals(accepted@),
        *final(counters) == (RistConnStats {
            packets_lost: stats::plus64(old(counters).packets_lost, lost as int),
            reorder_drops: stats::plus64(
                old(counters).reorder_drops,
                refusals(accepted@) as int,
            ),
            ..*old(counters)
        }),
{
    let mut dropped: u64 = 0;
    let mut i: usize = 0;
    while i < accepted.len()
        invariant
            i <= accepted@.len(),
            dropped <= i,
            dropped == refusals(accepted@.take(i as int)),
        decreases accepted@.len() - i,
    {
        assert(accepted@.take(i + 1).drop_last() =~= accepted@.take(i as int));
        if !accepted[i] {
            dropped = dropped + 1;
        }
        i = i + 1;
    }
    assert(accepted@.take(i as int) =~= accepted@);
    counters.packets_lost = counters.packets_lost.wrapping_add(lost);
    counters.reorder_drops = counters.reorder_drops.wrapping_add(dropped);
    dropped
}

/// Parts the packets from the losses.
fn sort_out(items: Vec<DrainItem>) -> (r: (Vec<RistDelivered>, u64))
    ensures
        delivered_views(r.0@) == delivered(reorder::drain_views(items@)),
        r.0@.len() + r.1 == items@.len(),
{
    let ghost views = reorder::drain_views(items@);
    let mut packets: Vec<RistDelivered> = Vec::new();
    let mut lost: u64 = 0;
    let mut i: usize = 0;
    assert(delivered_views(packets@) =~= delivered(views.take(0)));
    while i < items.len()
        invariant
            i <= items@.len(),
            views == reorder::drain_views(items@),
            delivered_views(packets@) == delivered(views.take(i as int)),
            packets@.len() + lost == i,
        decreases items@.len() - i,
    {
        let ghost so_far = packets@;
        proof {
            assert(views.take(i + 1).drop_last() =~= views.take(i as int));
            assert(views.take(i + 1).last() == items@[i as int]@);
        }
        match &items[i] {
            DrainItem::Delivered { data, seq, arrival } => {
                packets.push(
                    RistDelivered { data: data.clone(), arrival: *arrival, rtp_seq: *seq },
                );
                proof {
                    let last = packets@[so_far.len() as int];
                    assert(delivered_views(packets@) =~= delivered_views(so_far).push(last@));
                }
            },
            DrainItem::Lost => {
                lost = lost + 1;
            },
        }
        i = i + 1;
    }
    assert(views.take(i as int) =~= views);
    (packets, lost)
}

/// The buffer and the outcomes after packets `batch` go in at `now`, in order.
pub open spec fn after_batch(
    buffer: ReorderView,
    batch: Seq<ParsedRtpView>,
    now: Instant,
) -> (ReorderView, Seq<InsertOutcome>)
    decreases batch.len(),
{
    if batch.len() == 0 {
        (buffer, Seq::empty())
    } else {
        let (before, outcomes) = after_batch(buffer, batch.drop_last(), now);
        let (after, outcome) = before.after_insert(batch.last().seq, batch.last().payload, now);
        (after, outcomes.push(outcome))
    }
}

/// The views of a run of packets.
pub open spec fn batch_views(batch: Seq<ParsedRtp>) -> Seq<ParsedRtpView> {
    batch.map_values(|p: ParsedRtp| p@)
}

/// Puts a batch of packets that arrived at `now` into the buffer.
pub fn insert_batch(buffer: &mut ReorderBuffer, batch: &Vec<ParsedRtp>, now: Instant) -> (outcomes:
    Vec<InsertOutcome>)
    requires
        old(buffer).wf(),
    ensures
        final(buffer).wf(),
        final(buffer)@ == after_batch(old(buffer)@, batch_views(batch@), now).0,
        outcomes@ == after_batch(old(buffer)@, batch_views(batch@), now).1,
        outcomes@.len() == batch@.len(),
{
    let ghost views = batch_views(batch@);
    let mut outcomes: Vec<InsertOutcome> = Vec::with_capacity(batch.len());
    let mut i: usize = 0;
    assert(outcomes@ =~= after_batch(buffer@, views.take(0), now).1);
    while i < batch.len()
        invariant
            i <= batch@.len(),
            views == batch_views(batch@),
            buffer.wf(),
            buffer@ == after_batch(old(buffer)@, views.take(i as int), now).0,
            outcomes@ == after_batch(old(buffer)@, views.take(i as int), now).1,
            outcomes@.len() == i,
        decreases batch@.len() - i,
    {
        let p: &ParsedRtp = &batch[i];
        proof {
            assert(views.take(i + 1).drop_last() =~= views.take(i as int));
            assert(views.take(i + 1).last() == p@);
        }
        let outcome: InsertOutcome = buffer.insert(p.seq, p.payload.clone(), now);
        outcomes.push(outcome);
        i = i + 1;
    }
    assert(views.take(i as int) =~= views);
    outcomes
}

/// `n` and one more where `counts`, modulo 2^64.
pub open spec fn tallied(n: u64, counts: bool) -> u64 {
    if counts {
        stats::plus64(n, 1)
    } else {
        n
    }
}

/// The counters after packet `p` went into the buffer with outcome `o`.
pub open spec fn counted(
    before: RistConnStats,
    p: ParsedRtpView,
    o: InsertOutcome,
) -> RistConnStats {
    RistConnStats {
        packets_received: stats::plus64(before.packets_received, 1),
        bytes_received: stats::plus64(before.bytes_received, p.payload.len() as int),
        retransmits_received: tallied(before.retransmits_received, p.is_retransmit),
        duplicates: tallied(before.duplicates, o.duplicate),
        packets_recovered: tallied(before.packets_recovered, o.recovered),
        reorder_drops: tallied(before.reorder_drops, o.stale),
        packets_lost: stats::plus64(before.packets_lost, o.overflow_flushed as int),
        ..before
    }
}

/// Counts a packet that went into the buffer.
fn count_packet(counters: &mut RistConnStats, p: &ParsedRtp, o: InsertOutcome)
    requires
        p.wf(),
    ensures
        *final(counters) == counted(*old(counters), p@, o),
{
    counters.packets_received = counters.packets_received.wrapping_add(1);
    counters.bytes_received = counters.bytes_received.wrapping_add(p.payload_len as u64);
    if p.is_retransmit {
        counters.retransmits_received = counters.retransmits_received.wrapping_add(1);
    }
    if o.duplicate {
        counters.duplicates = counters.duplicates.wrapping_add(1);
    }
    if o.recovered {
        counters.packets_recovered = counters.packets_recovered.wrapping_add(1);
    }
    if o.stale {
        counters.reorder_drops = counters.reorder_drops.wrapping_add(1);
    }
    counters.packets_lost = counters.packets_lost.wrapping_add(o.overflow_flushed as u64);
}

/// The state of a [`ReceiverSession`].
#[verifier::ext_equal]
pub struct ReceiverView {
    pub ssrc: u32,
    pub rtcp: RtcpReceiverView,
    pub nack: NackView,
    pub rtt: RttView,
    /// The only source admitted, where one is configured.
    pub pinned_ip: Option<IpAddr>,
    /// Where RTCP goes, once the sender is known.
    pub peer: Option<SocketAddr>,
    /// When a packet was last accepted from the sender.
    pub peer_live: Option<Instant>,
    /// The source of the media, as seen on its packets.
    pub media_ssrc: Option<u32>,
    pub rtt_echo_enabled: bool,
    pub stats: RistConnStats,
}

impl ReceiverView {
    /// A session at its start, that reports as `ssrc` under the name `cname`.
    pub open spec fn at_start(config: RistSocketConfig, ssrc: u32, cname: Seq<char>) -> Self {
        ReceiverView {
            ssrc,
            rtcp: RtcpReceiverView {
                ssrc,
                cname,
                sender_ssrc: None,
                seqs: None,
                packets_received: 0,
                expected_prior: 0,
                received_prior: 0,
                jitter: 0,
                last_transit: None,
                last_sr_ntp: 0,
                last_sr_time: None,
                last_rtcp_time: None,
                rtcp_interval: config.rtcp_interval,
            },
            nack: NackView {
                max_retries: config.max_nack_retries,
                base_delay: Duration { nanos: 50_000_000 },
                expected: None,
                pending: Map::empty(),
            },
            rtt: RttView {
                srtt: None,
                rttvar: None,
                last_request_time: None,
                last_request_timestamp: None,
                request_interval: sender::ten_times(config.rtcp_interval),
                next_request_at: None,
            },
            pinned_ip: match config.remote_addr {
                Some(a) => Some(a.ip),
                None => None,
            },
            peer: None,
            peer_live: None,
            media_ssrc: None,
            rtt_echo_enabled: config.rtt_echo_enabled,
            stats: RistConnStats::zero(),
        }
    }

    /// Whether a datagram from `from` is admitted at `now`.
    pub open spec fn admits(self, from: SocketAddr, now: Instant) -> bool {
        guard::admits(from, self.pinned_ip, self.peer, self.peer_live, now)
    }

    /// Whether an admitted datagram from `from` gives a new RTCP address.
    pub open spec fn learns_from(self, from: SocketAddr) -> bool {
        self.peer matches Some(p) ==> p.ip != from.ip
    }

    /// Whether media from `from` is admitted at `now`. A new sender needs a
    /// port after its own for RTCP.
    pub open spec fn admits_media(self, from: SocketAddr, now: Instant) -> bool {
        self.admits(from, now) && (self.learns_from(from) ==> from.port < 65_535)
    }

    /// The state after the media source and, where it is new, the RTCP address
    /// of the sender have been seen on a packet at `now`.
    pub open spec fn after_media(self, from: SocketAddr, media_ssrc: u32, now: Instant) -> Self {
        ReceiverView {
            peer: if self.learns_from(from) {
                Some(channel::rtcp_addr_of(from))
            } else {
                self.peer
            },
            peer_live: Some(now),
            media_ssrc: Some(media_ssrc),
            ..self
        }
    }

    /// The state after packet `p` went into the buffer with outcome `o`.
    pub open spec fn after_packet(self, p: ParsedRtpView, o: InsertOutcome, now: Instant) -> Self {
        ReceiverView {
            rtcp: self.rtcp.after_packet(p.seq, p.rtp_ts, p.arrival_us, o.duplicate),
            nack: self.nack.after_packet(p.seq, now).0,
            stats: counted(self.stats, p, o),
            ..self
        }
    }

    /// The state after a batch went into the buffer.
    pub open spec fn after_packets(
        self,
        batch: Seq<ParsedRtpView>,
        outcomes: Seq<InsertOutcome>,
        now: Instant,
    ) -> Self
        decreases batch.len(),
    {
        if batch.len() == 0 {
            self
        } else {
            self.after_packets(batch.drop_last(), outcomes.drop_last(), now).after_packet(
                batch.last(),
                outcomes.last(),
                now,
            )
        }
    }

    /// The samples that a batch gives the jitter estimate, in order.
    pub open spec fn jitter_samples(
        self,
        batch: Seq<ParsedRtpView>,
        outcomes: Seq<InsertOutcome>,
        now: Instant,
    ) -> Seq<u32>
        decreases batch.len(),
    {
        if batch.len() == 0 {
            Seq::empty()
        } else {
            let before = self.after_packets(batch.drop_last(), outcomes.drop_last(), now);
            let samples = self.jitter_samples(batch.drop_last(), outcomes.drop_last(), now);
            let p = batch.last();
            match before.rtcp.jitter_sample(p.rtp_ts, p.arrival_us, outcomes.last().duplicate) {
                Some(d) => samples.push(d),
                None => samples,
            }
        }
    }

    /// The state after an echo response at `now`: a measured RTT also sets the
    /// delay of first NACKs, to half of it but not below the floor.
    pub open spec fn after_echo(self, resp: RttEchoResponse, now: Instant) -> Self {
        let rtt = self.rtt.after_response(now, resp.processing_delay_us);
        match rtt.srtt {
            None => ReceiverView { rtt, ..self },
            Some(srtt) => ReceiverView {
                rtt,
                nack: NackView { base_delay: retry_delay(srtt), ..self.nack },
                stats: RistConnStats {
                    rtt_us: sender::shown_rtt(rtt, self.stats.rtt_us),
                    ..self.stats
                },
                ..self
            },
        }
    }

    /// The state after sub-packet `p` of a datagram at `now`.
    pub open spec fn after_rtcp_packet(self, p: RtcpPacketView, now: Instant) -> Self {
        match p {
            RtcpPacketView::SenderReport(sr) => ReceiverView {
                rtcp: RtcpReceiverView {
                    sender_ssrc: Some(sr.ssrc),
                    last_sr_ntp: sr.middle_ntp() as u32,
                    last_sr_time: Some(now),
                    ..self.rtcp
                },
                ..self
            },
            RtcpPacketView::App(RistAppView::RttEchoResponse(resp)) => self.after_echo(resp, now),
            _ => self,
        }
    }

    /// The state after sub-packets `packets` of a datagram at `now`.
    pub open spec fn after_rtcp_packets(self, packets: Seq<RtcpPacketView>, now: Instant) -> Self
        decreases packets.len(),
    {
        if packets.len() == 0 {
            self
        } else {
            self.after_rtcp_packets(packets.drop_last(), now).after_rtcp_packet(
                packets.last(),
                now,
            )
        }
    }

    /// What becomes of RTCP datagram `s` from `from` at `now`, and the state
    /// after it.
    pub open spec fn after_rtcp(self, s: Seq<u8>, from: SocketAddr, now: Instant) -> (
        ReceiverView,
        ReceiverReactionView,
    ) {
        match rtcp::compound_parsed(s) {
            Err(_) => (self, ReceiverReactionView::Undecodable),
            Ok(packets) => if packets.len() == 0 {
                (self, ReceiverReactionView::Empty)
            } else if !self.admits(from, now) {
                (self, ReceiverReactionView::NotOurPeer)
            } else {
                (
                    ReceiverView {
                        peer: if self.learns_from(from) {
                            Some(from)
                        } else {
                            self.peer
                        },
                        peer_live: Some(now),
                        ..self
                    }.after_rtcp_packets(packets, now),
                    ReceiverReactionView::Serve { echo_requests: echo_requests(packets) },
                )
            },
        }
    }

    /// The media source that NACKs name: the one seen on media, else the one
    /// that reports name, else zero.
    pub open spec fn nacked_ssrc(self) -> u32 {
        match self.media_ssrc {
            Some(s) => s,
            None => match self.rtcp.sender_ssrc {
                Some(s) => s,
                None => 0,
            },
        }
    }

    /// The delay between repeated NACKs: the RTT, or 20 ms while it is not
    /// known.
    pub open spec fn nack_repeat(self) -> Duration {
        match self.rtt.srtt {
            Some(d) => d,
            None => Duration { nanos: 20_000_000 },
        }
    }

    /// The compound that asks for the packets `lost`: a report comes first.
    pub open spec fn nack_packets(self, lost: Seq<u16>, now: Instant) -> Seq<RtcpPacketView> {
        seq![
            RtcpPacketView::ReceiverReport(self.rtcp.report(now)),
            RtcpPacketView::Nack(
                NackPacketView {
                    sender_ssrc: self.ssrc,
                    media_ssrc: self.nacked_ssrc(),
                    entries: NackEntriesView::Bitmask(rtcp_nack::packed_bitmasks(lost)),
                },
            ),
        ]
    }

    /// Whether any packet is asked for at `now`.
    pub open spec fn has_nacks(self, now: Instant) -> bool {
        self.peer is Some && exists|s: u16| #[trigger] self.nack.asked_for(s, now)
    }

    /// The state after the NACKs due at `now` have been made up.
    pub open spec fn after_pump(self, now: Instant) -> Self {
        if self.peer is None {
            self
        } else {
            ReceiverView {
                nack: self.nack.after_nacks(now, self.nack_repeat()),
                rtcp: if self.has_nacks(now) {
                    self.rtcp.after_report(now)
                } else {
                    self.rtcp
                },
                ..self
            }
        }
    }

    /// Whether an echo request goes out at `now`.
    pub open spec fn asks_echo(self, now: Instant) -> bool {
        self.rtt_echo_enabled && self.rtt.request_due(now)
    }

    /// The periodic report at `now`.
    pub open spec fn tick_packets(self, now: Instant) -> Seq<RtcpPacketView> {
        let report = seq![
            RtcpPacketView::ReceiverReport(self.rtcp.report(now)),
            RtcpPacketView::Sdes(SdesView { ssrc: self.rtcp.ssrc, cname: self.rtcp.cname }),
        ];
        if self.asks_echo(now) {
            report.push(sender::echo_request(self.ssrc, self.rtt.request_timestamp(now)))
        } else {
            report
        }
    }

    /// The state after the periodic report at `now`.
    pub open spec fn after_tick(self, now: Instant) -> Self {
        if self.peer is None {
            self
        } else {
            ReceiverView {
                rtcp: self.rtcp.after_report(now),
                rtt: if self.asks_echo(now) {
                    self.rtt.after_request(now)
                } else {
                    self.rtt
                },
                ..self
            }
        }
    }
}

/// The delay of first NACKs for a measured RTT: half of it, at least 20 ms.
pub open spec fn retry_delay(rtt: Duration) -> Duration {
    if rtt.nanos / 2 >= 20_000_000 {
        Duration { nanos: rtt.nanos / 2 }
    } else {
        Duration { nanos: 20_000_000 }
    }
}

/// The echo requests among sub-packets, in order.
pub open spec fn echo_requests(packets: Seq<RtcpPacketView>) -> Seq<RttEchoRequest>
    decreases packets.len(),
{
    if packets.len() == 0 {
        Seq::empty()
    } else {
        let before = echo_requests(packets.drop_last());
        match packets.last() {
            RtcpPacketView::App(RistAppView::RttEchoRequest(req)) => before.push(req),
            _ => before,
        }
    }
}

/// What became of a received RTCP datagram.
#[verifier::ext_equal]
pub enum ReceiverReactionView {
    Undecodable,
    Empty,
    NotOurPeer,
    Serve { echo_requests: Seq<RttEchoRequest> },
}

/// What became of a received RTCP datagram.
#[derive(Debug)]
pub enum ReceiverReaction {
    /// It is no RTCP.
    Undecodable,
    /// It holds no packet.
    Empty,
    /// It is not from the sender, or not from the configured one.
    NotOurPeer,
    /// It was taken in: answer these requests in order.
    Serve { echo_requests: Vec<RttEchoRequest> },
}

impl View for ReceiverReaction {
    type V = ReceiverReactionView;

    open spec fn view(&self) -> ReceiverReactionView {
        match *self {
            ReceiverReaction::Undecodable => ReceiverReactionView::Undecodable,
            ReceiverReaction::Empty => ReceiverReactionView::Empty,
            ReceiverReaction::NotOurPeer => ReceiverReactionView::NotOurPeer,
            ReceiverReaction::Serve { echo_requests } => ReceiverReactionView::Serve {
                echo_requests: echo_requests@,
            },
        }
    }
}

/// A request for lost packets, to be sent to the sender.
#[derive(Debug)]
pub struct NackRequest {
    pub datagram: BytesMut,
    /// How many packets it asks for.
    pub count: usize,
}

/// A receiver's side of a RIST session.
pub struct ReceiverSession {
    ssrc: u32,
    rtcp_state: RtcpReceiverState,
    nack_scheduler: NackScheduler,
    rtt_estimator: RttEstimator,
    pinned_ip: Option<IpAddr>,
    sender_rtcp_addr: Option<SocketAddr>,
    peer_live: Option<Instant>,
    media_ssrc: Option<u32>,
    rtt_echo_enabled: bool,
    stats: RistConnStats,
}

impl View for ReceiverSession {
    type V = ReceiverView;

    closed spec fn view(&self) -> ReceiverView {
        ReceiverView {
            ssrc: self.ssrc,
            rtcp: self.rtcp_state@,
            nack: self.nack_scheduler@,
            rtt: self.rtt_estimator@,
            pinned_ip: self.pinned_ip,
            peer: self.sender_rtcp_addr,
            peer_live: self.peer_live,
            media_ssrc: self.media_ssrc,
            rtt_echo_enabled: self.rtt_echo_enabled,
            stats: self.stats,
        }
    }
}

impl ReceiverSession {
    /// The session's invariant: the scheduler's, one SSRC for all it sends,
    /// and a name that fits a report.
    pub closed spec fn wf(&self) -> bool {
        &&& self.nack_scheduler.wf()
        &&& self.rtcp_state@.ssrc == self.ssrc
        &&& sender::name_fits(self.rtcp_state@.cname)
    }

    /// A session that reports as `ssrc` under `cname`. Where the configuration
    /// names a remote address, only its host is listened to.
    pub fn new(config: &RistSocketConfig, ssrc: u32, cname: String) -> (s: ReceiverSession)
        requires
            sender::name_fits(cname@),
        ensures
            s.wf(),
            s@ == ReceiverView::at_start(*config, ssrc, cname@),
    {
        ReceiverSession {
            ssrc,
            rtcp_state: RtcpReceiverState::new(ssrc, cname, config.rtcp_interval),
            nack_scheduler: NackScheduler::new(
                config.max_nack_retries,
                Duration::from_millis(FIRST_NACK_DELAY_MS),
            ),
            rtt_estimator: RttEstimator::new(config.rtcp_interval.times_ten()),
            pinned_ip: match config.remote_addr {
                Some(a) => Some(a.ip),
                None => None,
            },
            sender_rtcp_addr: None,
            peer_live: None,
            media_ssrc: None,
            rtt_echo_enabled: config.rtt_echo_enabled,
            stats: RistConnStats::new(),
        }
    }

    /// A session with a fresh SSRC. `local_name` stands in where no name is
    /// configured.
    pub fn start(config: &RistSocketConfig, local_name: String) -> (s: ReceiverSession)
        requires
            sender::name_fits(local_name@),
            config.cname matches Some(name) ==> sender::name_fits(name@),
        ensures
            s.wf(),
            s@.ssrc % 2 == 0,
            s@ == ReceiverView::at_start(
                *config,
                s@.ssrc,
                config.name_or(local_name@),
            ),
    {
        let ssrc: u32 = random::fresh_ssrc();
        let cname = match &config.cname {
            Some(name) => name.clone(),
            None => local_name,
        };
        Self::new(config, ssrc, cname)
    }

    /// Where RTCP goes, once the sender is known.
    pub fn rtcp_peer(&self) -> (a: Option<SocketAddr>)
        ensures
            a == self@.peer,
    {
        self.sender_rtcp_addr
    }

    /// The session's SSRC.
    pub fn ssrc(&self) -> (s: u32)
        ensures
            s == self@.ssrc,
    {
        self.ssrc
    }

    /// Takes in a media datagram that arrived at `now`, `arrival_us` on the
    /// session's clock. Returns the packet to put into the reorder buffer, or
    /// nothing for a datagram that is no RTP, comes from a foreign source, or
    /// from a new source that has no port left for RTCP.
    pub fn on_media(
        &mut self,
        datagram: &[u8],
        from: SocketAddr,
        arrival_us: u64,
        now: Instant,
    ) -> (r: Option<ParsedRtp>)
        requires
            old(self).wf(),
        ensures
            final(self).wf(),
            match r {
                Some(p) => {
                    &&& p.wf()
                    &&& media_in(datagram@, arrival_us) == Some(p@)
                    &&& old(self)@.admits_media(from, now)
                    &&& final(self)@ == old(self)@.after_media(from, p.media_ssrc, now)
                },
                None => {
                    &&& media_in(datagram@, arrival_us) is None || !old(self)@.admits_media(
                        from,
                        now,
                    )
                    &&& final(self)@ == old(self)@
                },
            },
    {
        if !guard::source_allowed(
            from,
            self.pinned_ip,
            self.sender_rtcp_addr,
            self.peer_live,
            now,
        ) {
            return None;
        }
        let new_peer = match self.sender_rtcp_addr {
            None => true,
            Some(addr) => addr.ip != from.ip,
        };
        if new_peer && from.port == 65_535 {
            return None;
        }
        match parse_rtp(datagram, arrival_us) {
            None => None,
            Some(p) => {
                if new_peer {
                    self.sender_rtcp_addr = Some(channel::rtcp_addr_for(from));
                }
                self.peer_live = Some(now);
                self.media_ssrc = Some(p.media_ssrc);
                Some(p)
            },
        }
    }

    /// Takes note of what became of a batch in the reorder buffer. Returns the
    /// samples for the jitter estimate.
    pub fn on_inserted(
        &mut self,
        batch: &Vec<ParsedRtp>,
        outcomes: &Vec<InsertOutcome>,
        now: Instant,
    ) -> (samples: Vec<u32>)
        requires
            old(self).wf(),
            outcomes@.len() == batch@.len(),
            forall|i: int| 0 <= i < batch@.len() ==> (#[trigger] batch@[i]).wf(),
        ensures
            final(self).wf(),
            final(self)@ == old(self)@.after_packets(batch_views(batch@), outcomes@, now),
            samples@ == old(self)@.jitter_samples(batch_views(batch@), outcomes@, now),
    {
        let ghost views = batch_views(batch@);
        let ghost outs = outcomes@;
        let mut samples: Vec<u32> = Vec::new();
        let mut i: usize = 0;
        assert(samples@ =~= old(self)@.jitter_samples(views.take(0), outs.take(0), now));
        while i < batch.len()
            invariant
                i <= batch@.len(),
                outs.len() == batch@.len(),
                outs == outcomes@,
                views == batch_views(batch@),
                forall|k: int| 0 <= k < batch@.len() ==> (#[trigger] batch@[k]).wf(),
                self.wf(),
                self@ == old(self)@.after_packets(
                    views.take(i as int),
                    outs.take(i as int),
                    now,
                ),
                samples@ == old(self)@.jitter_samples(
                    views.take(i as int),
                    outs.take(i as int),
                    now,
                ),
            decreases batch@.len() - i,
        {
            let p: &ParsedRtp = &batch[i];
            let o: InsertOutcome = outcomes[i];
            proof {
                assert(views.take(i + 1).drop_last() =~= views.take(i as int));
                assert(outs.take(i + 1).drop_last() =~= outs.take(i as int));
                assert(views.take(i + 1).last() == p@);
                assert(outs.take(i + 1).last() == o);
            }
            if let Some(d) = self.note_packet(p, o, now) {
                samples.push(d);
            }
            i = i + 1;
        }
        assert(views.take(i as int) =~= views);
        assert(outs.take(i as int) =~= outs);
        samples
    }

    /// Takes note of one packet that went into the buffer.
    fn note_packet(&mut self, p: &ParsedRtp, o: InsertOutcome, now: Instant) -> (d: Option<u32>)
        requires
            old(self).wf(),
            p.wf(),
        ensures
            final(self).wf(),
            final(self)@ == old(self)@.after_packet(p@, o, now),
            d == old(self)@.rtcp.jitter_sample(p.rtp_ts, p.arrival_us, o.duplicate),
    {
        let d: Option<u32> = self.rtcp_state.on_packet(p.seq, p.rtp_ts, p.arrival_us, o.duplicate);
        let _gaps: Vec<u16> = self.nack_scheduler.on_packet_received(p.seq, now);
        count_packet(&mut self.stats, p, o);
        d
    }

    /// Takes over the jitter estimate: in whole timestamp units for reports,
    /// and in microseconds for the counters.
    pub fn set_jitter(&mut self, ticks: u32, micros: u64)
        requires
            old(self).wf(),
        ensures
            final(self).wf(),
            final(self)@ == (ReceiverView {
                rtcp: RtcpReceiverView { jitter: ticks, ..old(self)@.rtcp },
                stats: RistConnStats { jitter_us: micros, ..old(self)@.stats },
                ..old(self)@
            }),
    {
        self.rtcp_state.set_jitter(ticks);
        self.stats.jitter_us = micros;
    }

    /// Takes in an RTCP datagram: sender reports and echo responses at once;
    /// echo requests are returned to be answered.
    pub fn on_rtcp(&mut self, datagram: &[u8], from: SocketAddr, now: Instant) -> (r:
        ReceiverReaction)
        requires
            old(self).wf(),
        ensures
            final(self).wf(),
            final(self)@ == old(self)@.after_rtcp(datagram@, from, now).0,
            r@ == old(self)@.after_rtcp(datagram@, from, now).1,
    {
        let compound: RtcpCompound = match RtcpCompound::parse(datagram) {
            Ok(c) => c,
            Err(_) => {
                return ReceiverReaction::Undecodable;
            },
        };
        if compound.packets.len() == 0 {
            return ReceiverReaction::Empty;
        }
        if !guard::source_allowed(
            from,
            self.pinned_ip,
            self.sender_rtcp_addr,
            self.peer_live,
            now,
        ) {
            return ReceiverReaction::NotOurPeer;
        }
        let new_peer = match self.sender_rtcp_addr {
            None => true,
            Some(addr) => addr.ip != from.ip,
        };
        if new_peer {
            self.sender_rtcp_addr = Some(from);
        }
        self.peer_live = Some(now);
        let echo_requests: Vec<RttEchoRequest> = self.take_in(&compound, now);
        ReceiverReaction::Serve { echo_requests }
    }

    /// Takes in the sub-packets of a datagram, and returns the echo requests
    /// among them.
    fn take_in(&mut self, compound: &RtcpCompound, now: Instant) -> (requests: Vec<RttEchoRequest>)
        requires
            old(self).wf(),
        ensures
            final(self).wf(),
            final(self)@ == old(self)@.after_rtcp_packets(compound@, now),
            requests@ == echo_requests(compound@),
    {
        let ghost all = compound@;
        let mut requests: Vec<RttEchoRequest> = Vec::new();
        let mut i: usize = 0;
        assert(requests@ =~= echo_requests(all.take(0)));
        while i < compound.packets.len()
            invariant
                i <= compound.packets@.len(),
                all == compound@,
                self.wf(),
                self@ == old(self)@.after_rtcp_packets(all.take(i as int), now),
                requests@ == echo_requests(all.take(i as int)),
            decreases compound.packets@.len() - i,
        {
            proof {
                assert(all.take(i + 1).drop_last() =~= all.take(i as int));
                assert(all.take(i + 1).last() == compound.packets@[i as int]@);
            }
            match &compound.packets[i] {
                RtcpPacket::SenderReport(sr) => {
                    self.rtcp_state.on_sr_received(sr, now);
                },
                RtcpPacket::App(app) => match app {
                    RistApp::RttEchoRequest(req) => {
                        requests.push(*req);
                    },
                    RistApp::RttEchoResponse(resp) => {
                        self.take_response(*resp, now);
                    },
                    _ => {},
                },
                _ => {},
            }
            i = i + 1;
        }
        assert(all.take(i as int) =~= all);
        requests
    }

    /// Takes an echo response into the RTT estimate, and tightens the NACK
    /// delay to match it, never below the floor.
    fn take_response(&mut self, resp: RttEchoResponse, now: Instant)
        requires
            old(self).wf(),
        ensures
            final(self).wf(),
            final(self)@ == old(self)@.after_echo(resp, now),
    {
        self.rtt_estimator.on_response(
            now,
            resp.timestamp_msw,
            resp.timestamp_lsw,
            resp.processing_delay_us,
        );
        if let Some(rtt) = self.rtt_estimator.srtt() {
            self.stats.rtt_us = (rtt.as_micros() % 0x1_0000_0000_0000_0000) as u64;
            let retry: Duration = rtt.half().at_least(
                Duration::from_millis(MIN_NACK_RETRY_DELAY_MS),
            );
            self.nack_scheduler.update_base_delay(retry);
        }
    }

    /// The compound that answers `request`, which arrived at `recv_at`.
    pub fn echo_reply(&self, request: RttEchoRequest, recv_at: Instant, now: Instant) -> (b:
        BytesMut)
        ensures
            octets::written(b) == rtcp::compound_wire(
                sender::echo_compound(self@.ssrc, request, now.duration_since(recv_at)),
            ),
    {
        sender::echo_reply_for(self.ssrc, request, recv_at, now)
    }

    /// Makes up the NACKs that are due at `now`, if the sender is known and
    /// there are any: a report, then the NACK.
    pub fn on_pump(&mut self, now: Instant) -> (r: Option<NackRequest>)
        requires
            old(self).wf(),
        ensures
            final(self).wf(),
            final(self)@ == old(self)@.after_pump(now),
            match r {
                Some(request) => old(self)@.has_nacks(now) && exists|lost: Seq<u16>|
                    {
                        &&& nack_tracker::lists_ascending(
                            lost,
                            |s: u16| old(self)@.nack.asked_for(s, now),
                        )
                        &&& request.count == lost.len()
                        &&& octets::written(request.datagram) == rtcp::compound_wire(
                            #[trigger] old(self)@.nack_packets(lost, now),
                        )
                    },
                None => !old(self)@.has_nacks(now),
            },
    {
        if self.sender_rtcp_addr.is_none() {
            return None;
        }
        let repeat: Duration = match self.rtt_estimator.srtt() {
            Some(rtt) => rtt,
            None => Duration::from_millis(MIN_NACK_RETRY_DELAY_MS),
        };
        let lost: Vec<u16> = self.nack_scheduler.get_pending_nacks(now, Some(repeat));
        if lost.len() == 0 {
            proof {
                assert forall|s: u16| !#[trigger] old(self)@.nack.asked_for(s, now) by {
                    assert(!lost@.contains(s));
                }
            }
            return None;
        }
        proof {
            assert(lost@.contains(lost@[0]));
            assert(old(self)@.nack.asked_for(lost@[0], now));
        }
        let media_ssrc: u32 = match self.media_ssrc {
            Some(s) => s,
            None => match self.rtcp_state.sender_ssrc() {
                Some(s) => s,
                None => 0,
            },
        };
        let builder = NackListBuilder::new(self.ssrc, media_ssrc);
        let nack = builder.build_bitmask(lost.as_slice());
        let rr = self.rtcp_state.generate_rr(now);
        let mut packets: Vec<RtcpPacket> = Vec::new();
        packets.push(RtcpPacket::ReceiverReport(rr));
        packets.push(RtcpPacket::Nack(nack));
        let compound = RtcpCompound { packets };
        proof {
            assert(compound@ =~= old(self)@.nack_packets(lost@, now));
            lemma_ascending_len(lost@);
            rtcp_nack::lemma_packed_len(lost@);
            lemma_nack_fits(old(self)@, lost@, now);
        }
        Some(NackRequest { datagram: compound.serialize(), count: lost.len() })
    }

    /// Counts `count` requests that went out.
    pub fn on_nacks_sent(&mut self, count: usize)
        requires
            old(self).wf(),
        ensures
            final(self).wf(),
            final(self)@ == (ReceiverView {
                stats: RistConnStats {
                    nacks_sent: stats::plus64(old(self)@.stats.nacks_sent, count as int),
                    ..old(self)@.stats
                },
                ..old(self)@
            }),
    {
        self.stats.nacks_sent = self.stats.nacks_sent.wrapping_add(count as u64);
    }

    /// The periodic report, once the sender is known: RR, SDES, and an echo
    /// request when one is due.
    pub fn on_tick(&mut self, now: Instant) -> (r: Option<BytesMut>)
        requires
            old(self).wf(),
        ensures
            final(self).wf(),
            final(self)@ == old(self)@.after_tick(now),
            match r {
                Some(b) => old(self)@.peer is Some && octets::written(b) == rtcp::compound_wire(
                    old(self)@.tick_packets(now),
                ),
                None => old(self)@.peer is None,
            },
    {
        if self.sender_rtcp_addr.is_none() {
            return None;
        }
        let mut packets: Vec<RtcpPacket> = Vec::new();
        packets.push(RtcpPacket::ReceiverReport(self.rtcp_state.generate_rr(now)));
        packets.push(RtcpPacket::Sdes(self.rtcp_state.generate_sdes()));
        if self.rtt_echo_enabled && self.rtt_estimator.should_send_request(now) {
            let (msw, lsw): (u32, u32) = self.rtt_estimator.generate_request(now);
            packets.push(
                RtcpPacket::App(
                    RistApp::RttEchoRequest(
                        RttEchoRequest {
                            ssrc: self.ssrc,
                            timestamp_msw: msw,
                            timestamp_lsw: lsw,
                        },
                    ),
                ),
            );
        }
        let compound = RtcpCompound { packets };
        proof {
            assert(compound@ =~= old(self)@.tick_packets(now));
            lemma_tick_fits(old(self)@, now);
        }
        Some(compound.serialize())
    }

    /// The counters since the last call. The counts start over; the round-trip
    /// time and the jitter stay.
    pub fn take_stats(&mut self) -> (s: RistConnStats)
        requires
            old(self).wf(),
        ensures
            final(self).wf(),
            s == old(self)@.stats,
            final(self)@ == (ReceiverView {
                stats: RistConnStats {
                    rtt_us: s.rtt_us,
                    jitter_us: s.jitter_us,
                    ..RistConnStats::zero()
                },
                ..old(self)@
            }),
    {
        let taken: RistConnStats = self.stats;
        self.stats = RistConnStats::new();
        self.stats.rtt_us = taken.rtt_us;
        self.stats.jitter_us = taken.jitter_us;
        taken
    }
}

proof fn lemma_ascending_len(list: Seq<u16>)
    requires
        forall|i: int, j: int| 0 <= i < j < list.len() ==> list[i] < list[j],
    ensures
        list.len() <= 65_536,
{
    if list.len() > 0 {
        lemma_ascending_floor(list, list.len() - 1);
    }
}

proof fn lemma_ascending_floor(list: Seq<u16>, i: int)
    requires
        forall|i: int, j: int| 0 <= i < j < list.len() ==> list[i] < list[j],
        0 <= i < list.len(),
    ensures
        list[i] >= i,
    decreases i,
{
    if i > 0 {
        lemma_ascending_floor(list, i - 1);
        assert(list[i - 1] < list[i]);
    }
}

/// A report takes at most 32 bytes.
proof fn lemma_report_len(v: RtcpReceiverView, now: Instant)
    ensures
        v.report(now).wire().len() <= 32,
        v.report(now).reports.len() <= 1,
{
    crate::packet::rtcp_rr::lemma_wire_len(v.report(now));
}

proof fn lemma_nack_fits(v: ReceiverView, lost: Seq<u16>, now: Instant)
    requires
        lost.len() <= 65_536,
        rtcp_nack::packed_bitmasks(lost).len() <= lost.len(),
    ensures
        rtcp::compound_wire(v.nack_packets(lost, now)).len() <= isize::MAX,
{
    let plan = v.nack_packets(lost, now);
    let first = Seq::empty().push(plan[0]);
    rtcp::lemma_compound_push(Seq::empty(), plan[0]);
    rtcp::lemma_compound_push(first, plan[1]);
    assert(first.push(plan[1]) =~= plan);
    lemma_report_len(v.rtcp, now);
    rtcp_nack::law_nack_reads_back(plan[1]->Nack_0);
    reveal(RtcpPacketView::wire);
}

proof fn lemma_tick_fits(v: ReceiverView, now: Instant)
    requires
        sender::name_fits(v.rtcp.cname),
    ensures
        rtcp::compound_wire(v.tick_packets(now)).len() <= isize::MAX,
{
    let plan = v.tick_packets(now);
    let first = Seq::empty().push(plan[0]);
    let second = first.push(plan[1]);
    rtcp::lemma_compound_push(Seq::empty(), plan[0]);
    rtcp::lemma_compound_push(first, plan[1]);
    lemma_report_len(v.rtcp, now);
    reveal(RtcpPacketView::wire);
    if v.asks_echo(now) {
        rtcp::lemma_compound_push(second, plan[2]);
        assert(second.push(plan[2]) =~= plan);
    } else {
        assert(second =~= plan);
    }
}

/// While the sender is live, media and RTCP from another host are refused.
pub proof fn law_live_sender_is_not_displaced(v: ReceiverView, from: SocketAddr, now: Instant)
    requires
        v.peer matches Some(p) && p.ip != from.ip,
        guard::held_for_peer(v.peer_live, now),
    ensures
        !v.admits(from, now),
        forall|s: Seq<u8>| #[trigger] v.after_rtcp(s, from, now).0 == v,
{
}

/// Where a sender is configured, no other host is listened to.
pub proof fn law_configured_sender_is_the_only_one(v: ReceiverView, from: SocketAddr, now: Instant)
    requires
        v.pinned_ip matches Some(ip) && ip != from.ip,
    ensures
        !v.admits(from, now),
        forall|s: Seq<u8>| #[trigger] v.after_rtcp(s, from, now).0 == v,
{
}

/// A media packet is received as it was sent: its number, its timestamp, its
/// payload and its source.
pub proof fn law_media_is_received_as_sent(
    ssrc: u32,
    seq: u16,
    timestamp: u32,
    payload: Seq<u8>,
    arrival_us: u64,
)
    ensures
        media_in(
            sender::media_header(ssrc, seq, timestamp).wire() + payload,
            arrival_us,
        ) == Some(
            ParsedRtpView {
                seq,
                rtp_ts: timestamp,
                payload,
                arrival_us,
                is_retransmit: ssrc % 2 == 1,
                media_ssrc: (ssrc / 2 * 2) as u32,
            },
        ),
{
    let header = sender::media_header(ssrc, seq, timestamp);
    crate::packet::rtp::law_header_reads_back(header, payload);
    assert((header.wire() + payload).skip(12) =~= payload);
}

/// A retransmitted packet carries what the packet carried when it was first
/// sent, and is recognized as a retransmission of the same source.
pub proof fn law_retransmit_is_received_as_sent(
    ssrc: u32,
    seq: u16,
    timestamp: u32,
    payload: Seq<u8>,
    arrival_us: u64,
)
    requires
        ssrc % 2 == 0,
    ensures
        media_in(
            sender::flagged(sender::media_header(ssrc, seq, timestamp).wire() + payload),
            arrival_us,
        ) == Some(
            ParsedRtpView {
                seq,
                rtp_ts: timestamp,
                payload,
                arrival_us,
                is_retransmit: true,
                media_ssrc: ssrc,
            },
        ),
{
    sender::law_retransmit_is_the_packet(ssrc, seq, timestamp, payload);
    law_media_is_received_as_sent((ssrc + 1) as u32, seq, timestamp, payload, arrival_us);
}

/// The sender reads the receiver's request as it was made, and takes it for
/// its own once the receiver has seen its media.
pub proof fn law_request_reaches_the_sender(
    v: ReceiverView,
    lost: Seq<u16>,
    now: Instant,
    ssrc: u32,
)
    requires
        nack_cover::ascends(lost) || lost.len() <= 65_533,
        v.media_ssrc == Some(ssrc),
    ensures
        rtcp::compound_parsed(rtcp::compound_wire(v.nack_packets(lost, now))) == Ok::<
            Seq<RtcpPacketView>,
            crate::error::RistErrorView,
        >(v.nack_packets(lost, now)),
        v.nack_packets(lost, now)[0] is ReceiverReport,
        guard::targets(v.nacked_ssrc(), ssrc),
{
    let plan = v.nack_packets(lost, now);
    rtcp_nack::lemma_packed_len(lost);
    if nack_cover::ascends(lost) {
        nack_cover::law_bitmasks_are_few(lost);
    }
    assert(plan[0].fits()) by {
        lemma_report_len(v.rtcp, now);
    }
    assert(plan[1].fits());
    rtcp::law_compound_reads_back(plan);
}

/// The periodic report starts with a receiver report, and the sender reads it
/// as it was made. A name of more than 255 bytes is left out: its length has
/// no place in the packet.
pub proof fn law_report_is_read_as_sent(v: ReceiverView, now: Instant)
    requires
        vstd::utf8::encode_utf8(v.rtcp.cname).len() <= 255,
    ensures
        v.tick_packets(now)[0] is ReceiverReport,
        rtcp::compound_parsed(rtcp::compound_wire(v.tick_packets(now))) == Ok::<
            Seq<RtcpPacketView>,
            crate::error::RistErrorView,
        >(v.tick_packets(now)),
{
    let plan = v.tick_packets(now);
    lemma_report_len(v.rtcp, now);
    assert forall|i: int| 0 <= i < plan.len() implies (#[trigger] plan[i]).fits() by {}
    rtcp::law_compound_reads_back(plan);
}

/// A lost packet is recovered: the request that asks for it makes the sender,
/// as long as it holds the packet and has work left for it, send it again; and
/// the copy fills the gap with the payload that was lost. Only what stands
/// before the packet in the request takes from that work.
pub proof fn law_lost_packet_is_recovered(
    tx: SenderView,
    rx: ReceiverView,
    buffer: ReorderView,
    lost: Seq<u16>,
    k: int,
    payload: Seq<u8>,
    timestamp: u32,
    i: int,
    from: SocketAddr,
    asked: Instant,
    served: Instant,
    arrival_us: u64,
    arrival: Instant,
)
    requires
        tx.ssrc % 2 == 0,
        buffer.valid(),
        0 <= i < buffer.window.len(),
        buffer.window[i] is Gap,
        tx.ring.packets.dom().contains(buffer.seq_at(i)),
        tx.ring.packets[buffer.seq_at(i)] == sender::media_header(
            tx.ssrc,
            buffer.seq_at(i),
            timestamp,
        ).wire() + payload,
        guard::may_move(from, tx.remote_rtcp, tx.peer_live, served),
        rx.media_ssrc == Some(tx.ssrc),
        nack_tracker::lists_ascending(lost, |s: u16| rx.nack.asked_for(s, asked)),
        0 <= k < lost.len(),
        lost[k] == buffer.seq_at(i),
        k < guard::NackWorkBudget::sized(tx.ring.capacity).scan,
        sender::held_of(lost.take(k), tx.ring.packets.dom()).len()
            < guard::NackWorkBudget::sized(tx.ring.capacity).retx,
    ensures
        ({
            let seq = buffer.seq_at(i);
            let request = rtcp::compound_wire(rx.nack_packets(lost, asked));
            let reaction = tx.after_rtcp(request, from, served).1;
            let copy = media_in(sender::flagged(tx.ring.packets[seq]), arrival_us);
            let (after, outcome) = buffer.after_insert(seq, payload, arrival);
            &&& reaction is Serve
            &&& reaction->actions.contains(sender::SenderAction::Retransmit { seq })
            &&& copy matches Some(p) && p.seq == seq && p.payload == payload && p.is_retransmit
            &&& outcome.recovered
            &&& after == (ReorderView {
                window: buffer.window.update(i, reorder::WindowEntry::Filled { data: payload, arrival }),
                ..buffer
            })
        }),
{
    let seq = buffer.seq_at(i);
    let plan = rx.nack_packets(lost, asked);
    law_request_reaches_the_sender(rx, lost, asked, tx.ssrc);
    sender::law_requested_packets_are_sent_again(
        tx,
        plan[0],
        rx.ssrc,
        rx.nacked_ssrc(),
        lost,
        k,
    );
    assert(plan =~= seq![plan[0], plan[1]]);
    law_retransmit_is_received_as_sent(tx.ssrc, seq, timestamp, payload, arrival_us);
    reorder::law_retransmit_fills_the_gap(buffer, i, payload, arrival);
}

} // verus!
