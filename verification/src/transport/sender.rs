//! RIST sender session.
//!
//! Owns the RTP sequence counter, RTCP sender state, and retransmit buffer.
//! The caller hands it:
//! - Outgoing media from the application
//! - Incoming RTCP (NACKs, RTT echo responses) from the receiver
//! - The periodic tick for RTCP SR + SDES emission
//!
//! and sends what it returns.

use bytes::{Bytes, BytesMut};
use vstd::prelude::*;

use crate::octets;
use crate::packet::layout;
use crate::packet::rtcp;
use crate::packet::rtcp::{RtcpCompound, RtcpPacket, RtcpPacketView};
use crate::packet::rtcp_app::{RistApp, RistAppView, RttEchoRequest, RttEchoResponse};
use crate::packet::rtcp_nack;
use crate::packet::rtcp_nack::{
    BitmaskNack, NackEntries, NackEntriesView, NackPacketView, RangeNack,
};
use crate::packet::rtcp_rr::{ReceiverReport, ReceiverReportView};
use crate::packet::rtcp_sdes::SdesView;
use crate::packet::rtp::{RtpHeader, RTP_HEADER_SIZE};
use crate::protocol::nack_tracker;
use crate::protocol::nack_tracker::{RetransmitBuffer, RetransmitView};
use crate::protocol::ring;
use crate::protocol::rtcp_state;
use crate::protocol::rtcp_state::{RtcpSenderState, RtcpSenderView};
use crate::protocol::rtt::{RttEstimator, RttView};
use crate::serial;
use crate::time::{Duration, Instant, SystemTime};
use crate::transport::channel;
use crate::transport::config::RistSocketConfig;
use crate::transport::guard;
use crate::transport::guard::NackWorkBudget;
use crate::transport::net::SocketAddr;
use crate::transport::random;
use crate::transport::stats;
use crate::transport::stats::RistConnStats;

verus! {

broadcast use {octets::lemma_be16_len, octets::lemma_be32_len};

/// What a received RTCP datagram asks the sender to do.
#[derive(Debug, Clone, Copy, PartialEq, Eq, Structural)]
pub enum SenderAction {
    /// Send packet `seq` again.
    Retransmit { seq: u16 },
    /// Answer an echo request.
    EchoReply { request: RttEchoRequest },
    /// Take an echo response into the RTT estimate.
    RttSample { response: RttEchoResponse },
}

/// How far the service of one datagram has come.
#[verifier::ext_equal]
pub struct ServiceView {
    /// The work still allowed.
    pub budget: NackWorkBudget,
    /// How many packets have been asked for.
    pub requested: nat,
    /// What is to be done, in order.
    pub actions: Seq<SenderAction>,
    /// Whether the budget ran out, which ends the service.
    pub spent: bool,
}

impl ServiceView {
    /// The service after a request for packet `seq`, given the packets held.
    pub open spec fn one(self, seq: u16, held: Set<u16>) -> ServiceView {
        if self.spent {
            self
        } else if self.budget.scan == 0 {
            ServiceView { spent: true, ..self }
        } else {
            let looked_up = ServiceView {
                budget: NackWorkBudget { scan: (self.budget.scan - 1) as u32, ..self.budget },
                requested: self.requested + 1,
                ..self
            };
            if !held.contains(seq) {
                looked_up
            } else if self.budget.retx == 0 {
                ServiceView { spent: true, ..looked_up }
            } else {
                ServiceView {
                    budget: NackWorkBudget {
                        scan: (self.budget.scan - 1) as u32,
                        retx: (self.budget.retx - 1) as u32,
                    },
                    actions: self.actions.push(SenderAction::Retransmit { seq }),
                    ..looked_up
                }
            }
        }
    }

    /// The service after requests for packets `seqs`, in order.
    pub open spec fn many(self, seqs: Seq<u16>, held: Set<u16>) -> ServiceView
        decreases seqs.len(),
    {
        if seqs.len() == 0 {
            self
        } else {
            self.many(seqs.drop_last(), held).one(seqs.last(), held)
        }
    }

    /// The service after the entries of a NACK, each a list of packets.
    pub open spec fn lists(self, lists: Seq<Seq<u16>>, held: Set<u16>) -> ServiceView
        decreases lists.len(),
    {
        if lists.len() == 0 {
            self
        } else {
            self.lists(lists.drop_last(), held).many(lists.last(), held)
        }
    }

    /// The service with one more thing to do.
    pub open spec fn plus(self, action: SenderAction) -> ServiceView {
        ServiceView { actions: self.actions.push(action), ..self }
    }

    /// The service after sub-packet `p` of the datagram. A NACK for another
    /// source is left alone; a spent budget ends the datagram.
    pub open spec fn packet(self, p: RtcpPacketView, ssrc: u32, held: Set<u16>) -> ServiceView {
        if self.spent {
            self
        } else {
            match p {
                RtcpPacketView::Nack(nack) => if guard::targets(nack.media_ssrc, ssrc) {
                    self.lists(nack_lists(nack.entries), held)
                } else {
                    self
                },
                RtcpPacketView::App(RistAppView::RangeNack(nack)) => if guard::targets(
                    nack.media_ssrc,
                    ssrc,
                ) {
                    self.lists(pair_lists(nack.entries), held)
                } else {
                    self
                },
                RtcpPacketView::App(RistAppView::RttEchoRequest(request)) => self.plus(
                    SenderAction::EchoReply { request },
                ),
                RtcpPacketView::App(RistAppView::RttEchoResponse(response)) => self.plus(
                    SenderAction::RttSample { response },
                ),
                _ => self,
            }
        }
    }

    /// The service after sub-packets `packets`, in order.
    pub open spec fn packets(
        self,
        packets: Seq<RtcpPacketView>,
        ssrc: u32,
        held: Set<u16>,
    ) -> ServiceView
        decreases packets.len(),
    {
        if packets.len() == 0 {
            self
        } else {
            self.packets(packets.drop_last(), ssrc, held).packet(packets.last(), ssrc, held)
        }
    }

    /// The service of a datagram at its start.
    pub open spec fn fresh(budget: NackWorkBudget) -> ServiceView {
        ServiceView { budget, requested: 0, actions: Seq::empty(), spent: false }
    }
}

/// The packets that each entry of a NACK names.
pub open spec fn nack_lists(entries: NackEntriesView) -> Seq<Seq<u16>> {
    match entries {
        NackEntriesView::Bitmask(v) => v.map_values(|e: BitmaskNack| e.lost()),
        NackEntriesView::Range(v) => v.map_values(|e: RangeNack| e.lost()),
    }
}

/// The packets that each `(start, extra)` entry of an APP NACK names.
pub open spec fn pair_lists(entries: Seq<(u16, u16)>) -> Seq<Seq<u16>> {
    entries.map_values(|e: (u16, u16)| RangeNack { start: e.0, extra: e.1 }.lost())
}

/// The service of one received datagram.
struct Service {
    budget: NackWorkBudget,
    requested: u32,
    actions: Vec<SenderAction>,
    spent: bool,
}

impl View for Service {
    type V = ServiceView;

    closed spec fn view(&self) -> ServiceView {
        ServiceView {
            budget: self.budget,
            requested: self.requested as nat,
            actions: self.actions@,
            spent: self.spent,
        }
    }
}

impl Service {
    /// The count of requests cannot overflow: each one takes from the budget.
    spec fn wf(&self) -> bool {
        self.requested + self.budget.scan <= u32::MAX
    }

    /// Look up one requested packet, charging the budget as it goes. A miss
    /// costs one lookup and nothing else.
    fn serve_one(&mut self, seq: u16, ring: &RetransmitBuffer)
        requires
            old(self).wf(),
            ring.wf(),
        ensures
            final(self).wf(),
            final(self)@ == old(self)@.one(seq, ring@.packets.dom()),
    {
        if self.spent {
            return;
        }
        if !self.budget.charge_scan() {
            self.spent = true;
            return;
        }
        self.requested = self.requested + 1;
        if ring.get(seq).is_none() {
            return;
        }
        if !self.budget.charge_retx() {
            self.spent = true;
            return;
        }
        self.actions.push(SenderAction::Retransmit { seq });
    }

    /// Serve the packets that a bitmask entry names.
    fn serve_bitmask(&mut self, entry: BitmaskNack, ring: &RetransmitBuffer)
        requires
            old(self).wf(),
            ring.wf(),
        ensures
            final(self).wf(),
            final(self)@ == old(self)@.many(entry.lost(), ring@.packets.dom()),
    {
        let seqs: Vec<u16> = entry.lost_seqs();
        let ghost held = ring@.packets.dom();
        let mut i: usize = 0;
        while i < seqs.len()
            invariant
                i <= seqs@.len(),
                self.wf(),
                ring.wf(),
                held == ring@.packets.dom(),
                self@ == old(self)@.many(seqs@.take(i as int), held),
            decreases seqs@.len() - i,
        {
            self.serve_one(seqs[i], ring);
            assert(seqs@.take(i + 1).drop_last() =~= seqs@.take(i as int));
            i = i + 1;
        }
        assert(seqs@.take(i as int) =~= seqs@);
    }

    /// Serve the packets that a range entry names. The range is walked, not
    /// expanded: it names up to 65536 packets.
    fn serve_range(&mut self, entry: RangeNack, ring: &RetransmitBuffer)
        requires
            old(self).wf(),
            ring.wf(),
        ensures
            final(self).wf(),
            final(self)@ == old(self)@.many(entry.lost(), ring@.packets.dom()),
    {
        let ghost held = ring@.packets.dom();
        let ghost lost = entry.lost();
        let count: u32 = entry.extra as u32 + 1;
        let mut i: u32 = 0;
        while i < count && !self.spent
            invariant
                i <= count,
                count == lost.len(),
                lost == entry.lost(),
                self.wf(),
                ring.wf(),
                held == ring@.packets.dom(),
                self@ == old(self)@.many(lost.take(i as int), held),
            decreases count - i,
        {
            let seq: u16 = entry.start.wrapping_add(i as u16);
            assert(seq == lost[i as int]);
            self.serve_one(seq, ring);
            assert(lost.take(i + 1).drop_last() =~= lost.take(i as int));
            i = i + 1;
        }
        proof {
            if i < count {
                lemma_spent_stays(old(self)@, lost, i as int, held);
            }
            assert(lost.take(lost.len() as int) =~= lost);
        }
    }

    /// Serve a NACK's entries.
    fn serve_nack(&mut self, entries: &NackEntries, ring: &RetransmitBuffer)
        requires
            old(self).wf(),
            ring.wf(),
        ensures
            final(self).wf(),
            final(self)@ == old(self)@.lists(nack_lists(entries@), ring@.packets.dom()),
    {
        let ghost held = ring@.packets.dom();
        let ghost lists = nack_lists(entries@);
        let mut i: usize = 0;
        match entries {
            NackEntries::Bitmask(v) => {
                while i < v.len()
                    invariant
                        i <= v@.len(),
                        lists == nack_lists(NackEntriesView::Bitmask(v@)),
                        self.wf(),
                        ring.wf(),
                        held == ring@.packets.dom(),
                        self@ == old(self)@.lists(lists.take(i as int), held),
                    decreases v@.len() - i,
                {
                    self.serve_bitmask(v[i], ring);
                    assert(lists.take(i + 1).drop_last() =~= lists.take(i as int));
                    assert(lists.take(i + 1).last() == v@[i as int].lost());
                    i = i + 1;
                }
            },
            NackEntries::Range(v) => {
                while i < v.len()
                    invariant
                        i <= v@.len(),
                        lists == nack_lists(NackEntriesView::Range(v@)),
                        self.wf(),
                        ring.wf(),
                        held == ring@.packets.dom(),
                        self@ == old(self)@.lists(lists.take(i as int), held),
                    decreases v@.len() - i,
                {
                    self.serve_range(v[i], ring);
                    assert(lists.take(i + 1).drop_last() =~= lists.take(i as int));
                    assert(lists.take(i + 1).last() == v@[i as int].lost());
                    i = i + 1;
                }
            },
        }
        assert(lists.take(i as int) =~= lists);
    }

    /// Serve the entries of an APP NACK.
    fn serve_app_nack(&mut self, entries: &Vec<(u16, u16)>, ring: &RetransmitBuffer)
        requires
            old(self).wf(),
            ring.wf(),
        ensures
            final(self).wf(),
            final(self)@ == old(self)@.lists(pair_lists(entries@), ring@.packets.dom()),
    {
        let ghost held = ring@.packets.dom();
        let ghost lists = pair_lists(entries@);
        let mut i: usize = 0;
        while i < entries.len()
            invariant
                i <= entries@.len(),
                lists == pair_lists(entries@),
                self.wf(),
                ring.wf(),
                held == ring@.packets.dom(),
                self@ == old(self)@.lists(lists.take(i as int), held),
            decreases entries@.len() - i,
        {
            let (start, extra): (u16, u16) = entries[i];
            self.serve_range(RangeNack { start, extra }, ring);
            assert(lists.take(i + 1).drop_last() =~= lists.take(i as int));
            assert(lists.take(i + 1).last() == RangeNack { start, extra }.lost());
            i = i + 1;
        }
        assert(lists.take(i as int) =~= lists);
    }

    /// Serve one sub-packet of the datagram.
    fn serve_packet(&mut self, packet: &RtcpPacket, ssrc: u32, ring: &RetransmitBuffer)
        requires
            old(self).wf(),
            ring.wf(),
        ensures
            final(self).wf(),
            final(self)@ == old(self)@.packet(packet@, ssrc, ring@.packets.dom()),
    {
        if self.spent {
            return;
        }
        match packet {
            RtcpPacket::Nack(nack) => {
                if guard::nack_targets_us(nack.media_ssrc, ssrc) {
                    self.serve_nack(&nack.entries, ring);
                }
            },
            RtcpPacket::App(app) => match app {
                RistApp::RangeNack(nack) => {
                    if guard::nack_targets_us(nack.media_ssrc, ssrc) {
                        self.serve_app_nack(&nack.entries, ring);
                    }
                },
                RistApp::RttEchoRequest(request) => {
                    self.actions.push(SenderAction::EchoReply { request: *request });
                },
                RistApp::RttEchoResponse(response) => {
                    self.actions.push(SenderAction::RttSample { response: *response });
                },
                RistApp::Unknown { .. } => {},
            },
            _ => {},
        }
    }
}

/// Once the budget has run out, further requests change nothing.
proof fn lemma_spent_stays(service: ServiceView, seqs: Seq<u16>, i: int, held: Set<u16>)
    requires
        0 <= i <= seqs.len(),
        service.many(seqs.take(i), held).spent,
    ensures
        service.many(seqs.take(i), held) == service.many(seqs, held),
    decreases seqs.len() - i,
{
    if i < seqs.len() {
        assert(seqs.take(i + 1).drop_last() =~= seqs.take(i));
        lemma_spent_stays(service, seqs, i + 1, held);
    } else {
        assert(seqs.take(i) =~= seqs);
    }
}

/// The header of a media packet: MPEG-2 TS, without options.
pub open spec fn media_header(ssrc: u32, seq: u16, timestamp: u32) -> RtpHeader {
    RtpHeader {
        version: 2,
        padding: false,
        extension: false,
        csrc_count: 0,
        marker: false,
        payload_type: 33,
        sequence_number: seq,
        timestamp,
        ssrc,
    }
}

/// A stored packet as it is sent again: with the retransmit flag, the lowest
/// bit of the SSRC, set. A packet too short to have an SSRC stays as it is.
pub open spec fn flagged(packet: Seq<u8>) -> Seq<u8> {
    if packet.len() > 11 {
        packet.update(11, (packet[11] / 2 * 2 + 1) as u8)
    } else {
        packet
    }
}

/// The response to an echo request after `delay` of processing, which is
/// counted in whole microseconds up to the largest 32-bit value.
pub open spec fn echo_response(request: RttEchoRequest, delay: Duration) -> RttEchoResponse {
    RttEchoResponse {
        ssrc: request.ssrc,
        timestamp_msw: request.timestamp_msw,
        timestamp_lsw: request.timestamp_lsw,
        processing_delay_us: if delay.nanos / 1_000 > u32::MAX {
            u32::MAX
        } else {
            (delay.nanos / 1_000) as u32
        },
    }
}

/// The compound that answers an echo request: RTCP starts with a report.
pub open spec fn echo_compound(
    ssrc: u32,
    request: RttEchoRequest,
    delay: Duration,
) -> Seq<RtcpPacketView> {
    seq![
        RtcpPacketView::ReceiverReport(ReceiverReportView { ssrc, reports: Seq::empty() }),
        RtcpPacketView::App(RistAppView::RttEchoResponse(echo_response(request, delay))),
    ]
}

/// The compound that answers `request`, received at `recv_at`, at `now`.
pub(crate) fn echo_reply_for(
    ssrc: u32,
    request: RttEchoRequest,
    recv_at: Instant,
    now: Instant,
) -> (b: BytesMut)
    ensures
        octets::written(b) == rtcp::compound_wire(
            echo_compound(ssrc, request, now.duration_since(recv_at)),
        ),
{
    let delay_us: u128 = now.duration_since(recv_at).as_micros();
    let processing_delay_us: u32 = if delay_us > u32::MAX as u128 {
        u32::MAX
    } else {
        delay_us as u32
    };
    let response = RttEchoResponse {
        ssrc: request.ssrc,
        timestamp_msw: request.timestamp_msw,
        timestamp_lsw: request.timestamp_lsw,
        processing_delay_us,
    };
    let mut packets: Vec<RtcpPacket> = Vec::new();
    packets.push(RtcpPacket::ReceiverReport(ReceiverReport::empty(ssrc)));
    packets.push(RtcpPacket::App(RistApp::RttEchoResponse(response)));
    let compound = RtcpCompound { packets };
    proof {
        let plan = echo_compound(ssrc, request, now.duration_since(recv_at));
        assert(compound@ =~= plan);
        assert(seq![plan[0]].push(plan[1]) =~= plan);
        assert(Seq::empty().push(plan[0]) =~= seq![plan[0]]);
        rtcp::lemma_compound_push(Seq::empty(), plan[0]);
        rtcp::lemma_compound_push(seq![plan[0]], plan[1]);
        reveal(RtcpPacketView::wire);
    }
    compound.serialize()
}

/// The state of a [`SenderSession`].
#[verifier::ext_equal]
pub struct SenderView {
    pub ssrc: u32,
    /// The sequence number of the next media packet.
    pub next_seq: u16,
    pub rtcp: RtcpSenderView,
    /// The packets that can be sent again.
    pub ring: RetransmitView,
    pub rtt: RttView,
    /// Where RTCP goes.
    pub remote_rtcp: SocketAddr,
    /// When RTCP was last accepted from there.
    pub peer_live: Option<Instant>,
    pub rtt_echo_enabled: bool,
    pub stats: RistConnStats,
}

/// What became of a received RTCP datagram.
#[verifier::ext_equal]
pub enum ReactionView {
    /// It is no RTCP.
    Undecodable,
    /// It holds no packet.
    Empty,
    /// It is not from the peer, which is live.
    NotOurPeer,
    /// It is to be served.
    Serve { actions: Seq<SenderAction> },
}

impl SenderView {
    /// Whether this is a session at its start: of source `ssrc` under the name
    /// `cname`, towards `remote_rtp_addr`, with the media clock set at `epoch`.
    pub open spec fn is_new(
        self,
        config: RistSocketConfig,
        ssrc: u32,
        first_seq: u16,
        cname: Seq<char>,
        remote_rtp_addr: SocketAddr,
        epoch: Instant,
        epoch_system: SystemTime,
    ) -> bool {
        &&& self.ssrc == ssrc
        &&& self.next_seq == first_seq
        &&& self.rtcp == (RtcpSenderView {
            ssrc,
            cname,
            packet_count: 0,
            octet_count: 0,
            last_rtp_timestamp: 0,
            last_rtp_wallclock: None,
            rtp_ts_epoch: epoch,
            rtp_ts_epoch_system: epoch_system,
            last_rtcp_time: None,
            rtcp_interval: config.rtcp_interval,
        })
        &&& self.ring.packets == Map::<u16, Seq<u8>>::empty()
        &&& ring::is_power_of_two(self.ring.capacity)
        &&& self.ring.capacity >= config.retransmit_buffer_capacity
        &&& self.ring.capacity == 1 || self.ring.capacity / 2 < config.retransmit_buffer_capacity
        &&& self.rtt == (RttView {
            srtt: None,
            rttvar: None,
            last_request_time: None,
            last_request_timestamp: None,
            request_interval: ten_times(config.rtcp_interval),
            next_request_at: None,
        })
        &&& self.remote_rtcp == channel::rtcp_addr_of(remote_rtp_addr)
        &&& self.peer_live is None
        &&& self.rtt_echo_enabled == config.rtt_echo_enabled
        &&& self.stats == RistConnStats::zero()
    }

    /// The timestamp of media sent at `now`.
    pub open spec fn clock(self, now: Instant) -> u32 {
        rtcp_state::rtp_clock(self.rtcp.rtp_ts_epoch_system, self.rtcp.rtp_ts_epoch, now)
    }

    /// The packet that carries `payload` at `now`.
    pub open spec fn media_packet(self, payload: Seq<u8>, now: Instant) -> Seq<u8> {
        media_header(self.ssrc, self.next_seq, self.clock(now)).wire() + payload
    }

    /// The state after `payload` is handed over at `now`.
    pub open spec fn after_media(self, payload: Seq<u8>, now: Instant) -> SenderView {
        SenderView {
            next_seq: serial::plus(self.next_seq, 1),
            rtcp: self.rtcp.after_packet(payload.len() as usize, self.clock(now), now),
            ring: self.ring.after_insert(self.next_seq, self.media_packet(payload, now)),
            ..self
        }
    }

    /// The state after payloads are handed over one after another, each at its
    /// time.
    pub open spec fn after_all_media(self, media: Seq<(Seq<u8>, Instant)>) -> SenderView
        decreases media.len(),
    {
        if media.len() == 0 {
            self
        } else {
            self.after_all_media(media.drop_last()).after_media(media.last().0, media.last().1)
        }
    }

    /// The service of a datagram with sub-packets `packets`.
    pub open spec fn served(self, packets: Seq<RtcpPacketView>) -> ServiceView {
        ServiceView::fresh(NackWorkBudget::sized(self.ring.capacity)).packets(
            packets,
            self.ssrc,
            self.ring.packets.dom(),
        )
    }

    /// What becomes of RTCP datagram `s` from `from`, and the state after it.
    pub open spec fn after_rtcp(self, s: Seq<u8>, from: SocketAddr, at: Instant) -> (
        SenderView,
        ReactionView,
    ) {
        match rtcp::compound_parsed(s) {
            Err(_) => (self, ReactionView::Undecodable),
            Ok(packets) => if packets.len() == 0 {
                (self, ReactionView::Empty)
            } else if !guard::may_move(from, self.remote_rtcp, self.peer_live, at) {
                (self, ReactionView::NotOurPeer)
            } else {
                let service = self.served(packets);
                (
                    SenderView {
                        remote_rtcp: from,
                        peer_live: Some(at),
                        stats: RistConnStats {
                            nacks_received: stats::plus64(
                                self.stats.nacks_received,
                                service.requested as int,
                            ),
                            ..self.stats
                        },
                        ..self
                    },
                    ReactionView::Serve { actions: service.actions },
                )
            },
        }
    }

    /// Whether an echo request goes out at `now`.
    pub open spec fn asks_echo(self, now: Instant) -> bool {
        self.rtt_echo_enabled && self.rtt.request_due(now)
    }

    /// The periodic report at `now`, when the wall clock shows `wall`.
    pub open spec fn tick_packets(self, now: Instant, wall: SystemTime) -> Seq<RtcpPacketView> {
        let report = seq![
            RtcpPacketView::SenderReport(self.rtcp.report(now, wall)),
            RtcpPacketView::Sdes(SdesView { ssrc: self.rtcp.ssrc, cname: self.rtcp.cname }),
        ];
        if self.asks_echo(now) {
            report.push(echo_request(self.ssrc, self.rtt.request_timestamp(now)))
        } else {
            report
        }
    }

    /// The state after the periodic report at `now`.
    pub open spec fn after_tick(self, now: Instant) -> SenderView {
        SenderView {
            rtcp: RtcpSenderView { last_rtcp_time: Some(now), ..self.rtcp },
            rtt: if self.asks_echo(now) {
                self.rtt.after_request(now)
            } else {
                self.rtt
            },
            ..self
        }
    }
}

/// The echo request with timestamp `ts`.
pub open spec fn echo_request(ssrc: u32, ts: int) -> RtcpPacketView {
    RtcpPacketView::App(
        RistAppView::RttEchoRequest(
            RttEchoRequest {
                ssrc,
                timestamp_msw: (ts / 0x1_0000_0000) as u32,
                timestamp_lsw: (ts % 0x1_0000_0000) as u32,
            },
        ),
    )
}

/// The round-trip time that the counters show: that of the estimate, in
/// microseconds modulo 2^64, or the one before while there is no estimate.
pub open spec fn shown_rtt(rtt: RttView, before: u64) -> u64 {
    match rtt.srtt {
        Some(d) => (d.nanos as int / 1_000 % 0x1_0000_0000_0000_0000) as u64,
        None => before,
    }
}

/// What became of a received RTCP datagram.
#[derive(Debug)]
pub enum RtcpReaction {
    /// It is no RTCP.
    Undecodable,
    /// It holds no packet.
    Empty,
    /// It is not from the peer, which is live.
    NotOurPeer,
    /// It is to be served: do these in order.
    Serve { actions: Vec<SenderAction> },
}

impl View for RtcpReaction {
    type V = ReactionView;

    open spec fn view(&self) -> ReactionView {
        match *self {
            RtcpReaction::Undecodable => ReactionView::Undecodable,
            RtcpReaction::Empty => ReactionView::Empty,
            RtcpReaction::NotOurPeer => ReactionView::NotOurPeer,
            RtcpReaction::Serve { actions } => ReactionView::Serve { actions: actions@ },
        }
    }
}

/// A sender's side of a RIST session.
pub struct SenderSession {
    ssrc: u32,
    seq: u16,
    ts_epoch: Instant,
    ts_epoch_system: SystemTime,
    rtcp_state: RtcpSenderState,
    retransmit_buf: RetransmitBuffer,
    rtt_estimator: RttEstimator,
    remote_rtcp_addr: SocketAddr,
    rtcp_peer_live: Option<Instant>,
    budget: NackWorkBudget,
    rtt_echo_enabled: bool,
    stats: RistConnStats,
}

impl View for SenderSession {
    type V = SenderView;

    closed spec fn view(&self) -> SenderView {
        SenderView {
            ssrc: self.ssrc,
            next_seq: self.seq,
            rtcp: self.rtcp_state@,
            ring: self.retransmit_buf@,
            rtt: self.rtt_estimator@,
            remote_rtcp: self.remote_rtcp_addr,
            peer_live: self.rtcp_peer_live,
            rtt_echo_enabled: self.rtt_echo_enabled,
            stats: self.stats,
        }
    }
}

/// Whether a name fits a report.
pub open spec fn name_fits(cname: Seq<char>) -> bool {
    vstd::utf8::encode_utf8(cname).len() + 256 <= isize::MAX
}

impl SenderSession {
    /// The session's invariant: one clock and one SSRC for media and reports,
    /// and a budget that goes with the ring.
    pub closed spec fn wf(&self) -> bool {
        &&& self.retransmit_buf.wf()
        &&& self.budget == NackWorkBudget::sized(self.retransmit_buf@.capacity)
        &&& self.rtcp_state@.rtp_ts_epoch == self.ts_epoch
        &&& self.rtcp_state@.rtp_ts_epoch_system == self.ts_epoch_system
        &&& self.rtcp_state@.ssrc == self.ssrc
        &&& name_fits(self.rtcp_state@.cname)
    }

    /// A session of source `ssrc` towards `remote_rtp_addr`, whose media
    /// starts at `first_seq`, with the media clock set at `epoch`.
    ///
    /// RTCP starts at the address derived from the RTP destination, and is
    /// held there once it goes live.
    pub fn new(
        config: &RistSocketConfig,
        ssrc: u32,
        first_seq: u16,
        cname: String,
        remote_rtp_addr: SocketAddr,
        epoch: Instant,
        epoch_system: SystemTime,
    ) -> (s: SenderSession)
        requires
            config.retransmit_buffer_capacity <= usize::MAX / 2 + 1,
            remote_rtp_addr.port < 65_535,
            name_fits(cname@),
        ensures
            s.wf(),
            s@.is_new(*config, ssrc, first_seq, cname@, remote_rtp_addr, epoch, epoch_system),
    {
        let retransmit_buf = RetransmitBuffer::new(config.retransmit_buffer_capacity);
        let budget = NackWorkBudget::for_capacity(retransmit_buf.capacity());
        SenderSession {
            ssrc,
            seq: first_seq,
            ts_epoch: epoch,
            ts_epoch_system: epoch_system,
            rtcp_state: RtcpSenderState::new(
                ssrc,
                cname,
                config.rtcp_interval,
                epoch,
                epoch_system,
            ),
            retransmit_buf,
            rtt_estimator: RttEstimator::new(config.rtcp_interval.times_ten()),
            remote_rtcp_addr: channel::rtcp_addr_for(remote_rtp_addr),
            rtcp_peer_live: None,
            budget,
            rtt_echo_enabled: config.rtt_echo_enabled,
            stats: RistConnStats::new(),
        }
    }

    /// A session with a fresh SSRC and first sequence number that starts at
    /// `now`. `local_name` stands in where no name is configured.
    pub fn start(
        config: &RistSocketConfig,
        local_name: String,
        remote_rtp_addr: SocketAddr,
        now: Instant,
    ) -> (s: SenderSession)
        requires
            config.retransmit_buffer_capacity <= usize::MAX / 2 + 1,
            remote_rtp_addr.port < 65_535,
            name_fits(local_name@),
            config.cname matches Some(name) ==> name_fits(name@),
        ensures
            s.wf(),
            s@.ssrc % 2 == 0,
            exists|first_seq: u16, wall: SystemTime| #[trigger]
                s@.is_new(
                    *config,
                    s@.ssrc,
                    first_seq,
                    config.name_or(local_name@),
                    remote_rtp_addr,
                    now,
                    wall,
                ),
    {
        let ssrc: u32 = random::fresh_ssrc();
        let first_seq: u16 = random::fresh_seq();
        let cname = match &config.cname {
            Some(name) => name.clone(),
            None => local_name,
        };
        let wall: SystemTime = SystemTime::now();
        let ghost name = cname@;
        let s = Self::new(config, ssrc, first_seq, cname, remote_rtp_addr, now, wall);
        assert(name == config.name_or(local_name@));
        assert(s@.is_new(*config, s@.ssrc, first_seq, name, remote_rtp_addr, now, wall));
        s
    }

    /// Where RTCP goes.
    pub fn rtcp_peer(&self) -> (a: SocketAddr)
        ensures
            a == self@.remote_rtcp,
    {
        self.remote_rtcp_addr
    }

    /// The session's SSRC.
    pub fn ssrc(&self) -> (s: u32)
        ensures
            s == self@.ssrc,
    {
        self.ssrc
    }

    /// Packs media of the application into an RTP packet, and keeps the packet
    /// for retransmission. The packet is to be sent.
    pub fn on_media(&mut self, payload: &[u8], now: Instant) -> (packet: Bytes)
        requires
            old(self).wf(),
            payload@.len() + RTP_HEADER_SIZE <= isize::MAX,
        ensures
            final(self).wf(),
            final(self)@ == old(self)@.after_media(payload@, now),
            octets::content(packet) == old(self)@.media_packet(payload@, now),
    {
        let rtp_timestamp: u32 = rtcp_state::ntp_to_rtp90k(
            self.ts_epoch_system,
            self.ts_epoch,
            now,
        );
        let mut send_buf: BytesMut = octets::new_buffer(RTP_HEADER_SIZE + payload.len());
        write_rtp_header(&mut send_buf, self.ssrc, self.seq, rtp_timestamp);
        octets::put_slice(&mut send_buf, payload);
        let packet: Bytes = octets::freeze(send_buf);
        assert(octets::content(packet) =~= self@.media_packet(payload@, now));
        self.retransmit_buf.insert(self.seq, packet.clone());
        self.rtcp_state.on_packet_sent(payload.len(), rtp_timestamp, now);
        self.seq = self.seq.wrapping_add(1);
        packet
    }

    /// Counts a media packet of `len` bytes that went out.
    pub fn on_sent(&mut self, len: usize)
        requires
            old(self).wf(),
        ensures
            final(self).wf(),
            final(self)@ == (SenderView {
                stats: RistConnStats {
                    packets_sent: stats::plus64(old(self)@.stats.packets_sent, 1),
                    bytes_sent: stats::plus64(old(self)@.stats.bytes_sent, len as int),
                    ..old(self)@.stats
                },
                ..old(self)@
            }),
    {
        self.stats.packets_sent = self.stats.packets_sent.wrapping_add(1);
        self.stats.bytes_sent = self.stats.bytes_sent.wrapping_add(len as u64);
    }

    /// Takes in an RTCP datagram.
    ///
    /// The peer slot moves only under the hold-down rules, and only on a
    /// datagram that decodes as RTCP. One work budget covers the whole
    /// datagram, shared by every NACK sub-packet in it.
    pub fn on_rtcp(&mut self, datagram: &[u8], from: SocketAddr, recv_at: Instant) -> (r:
        RtcpReaction)
        requires
            old(self).wf(),
        ensures
            final(self).wf(),
            final(self)@ == old(self)@.after_rtcp(datagram@, from, recv_at).0,
            r@ == old(self)@.after_rtcp(datagram@, from, recv_at).1,
    {
        let compound: RtcpCompound = match RtcpCompound::parse(datagram) {
            Ok(c) => c,
            Err(_) => {
                return RtcpReaction::Undecodable;
            },
        };
        if compound.packets.len() == 0 {
            return RtcpReaction::Empty;
        }
        if !guard::peer_move_allowed(from, self.remote_rtcp_addr, self.rtcp_peer_live, recv_at) {
            return RtcpReaction::NotOurPeer;
        }
        self.remote_rtcp_addr = from;
        self.rtcp_peer_live = Some(recv_at);
        let (requested, actions) = self.serve(&compound);
        self.stats.nacks_received = self.stats.nacks_received.wrapping_add(requested as u64);
        RtcpReaction::Serve { actions }
    }

    /// Serves the sub-packets of a datagram under one budget.
    fn serve(&self, compound: &RtcpCompound) -> (r: (u32, Vec<SenderAction>))
        requires
            self.wf(),
        ensures
            r.0 == self@.served(compound@).requested,
            r.1@ == self@.served(compound@).actions,
    {
        let ghost held = self@.ring.packets.dom();
        let ghost fresh = ServiceView::fresh(self.budget);
        let mut service = Service {
            budget: self.budget,
            requested: 0,
            actions: Vec::new(),
            spent: false,
        };
        let mut i: usize = 0;
        assert(service@ =~= fresh.packets(compound@.take(0), self.ssrc, held));
        while i < compound.packets.len()
            invariant
                i <= compound.packets@.len(),
                self.wf(),
                held == self@.ring.packets.dom(),
                service.wf(),
                service@ == fresh.packets(compound@.take(i as int), self.ssrc, held),
            decreases compound.packets@.len() - i,
        {
            service.serve_packet(&compound.packets[i], self.ssrc, &self.retransmit_buf);
            assert(compound@.take(i + 1).drop_last() =~= compound@.take(i as int));
            i = i + 1;
        }
        assert(compound@.take(i as int) =~= compound@);
        (service.requested, service.actions)
    }

    /// The copy of packet `seq` to send again, if it is still held.
    ///
    /// The copy's SSRC carries the retransmit flag, so that the receiver counts
    /// it as a retransmit rather than fresh data.
    pub fn retransmit_packet(&self, seq: u16) -> (r: Option<Bytes>)
        requires
            self.wf(),
        ensures
            match r {
                Some(packet) => self@.ring.packets.dom().contains(seq) && octets::content(packet)
                    == flagged(self@.ring.packets[seq]),
                None => !self@.ring.packets.dom().contains(seq),
            },
    {
        match self.retransmit_buf.get(seq) {
            None => None,
            Some(stored) => {
                let mut copy: Vec<u8> = octets::to_vec(octets::octet_slice(stored));
                if copy.len() > 11 {
                    let low: u8 = copy[11];
                    assert(low | 1 == low / 2 * 2 + 1) by (bit_vector);
                    copy.set(11, low | 1);
                }
                Some(octets::copy_octets(copy.as_slice()))
            },
        }
    }

    /// Counts a retransmitted packet that went out.
    pub fn on_retransmitted(&mut self)
        requires
            old(self).wf(),
        ensures
            final(self).wf(),
            final(self)@ == (SenderView {
                stats: RistConnStats {
                    packets_retransmitted: stats::plus64(
                        old(self)@.stats.packets_retransmitted,
                        1,
                    ),
                    ..old(self)@.stats
                },
                ..old(self)@
            }),
    {
        self.stats.packets_retransmitted = self.stats.packets_retransmitted.wrapping_add(1);
    }

    /// The compound that answers `request`, which arrived at `recv_at`. It
    /// reports the time until `now` as processing delay, so that the requester
    /// can subtract it.
    pub fn echo_reply(&self, request: RttEchoRequest, recv_at: Instant, now: Instant) -> (b:
        BytesMut)
        ensures
            octets::written(b) == rtcp::compound_wire(
                echo_compound(self@.ssrc, request, now.duration_since(recv_at)),
            ),
    {
        echo_reply_for(self.ssrc, request, recv_at, now)
    }

    /// Takes an echo response into the RTT estimate.
    pub fn on_echo_response(&mut self, response: RttEchoResponse, now: Instant)
        requires
            old(self).wf(),
        ensures
            final(self).wf(),
            ({
                let rtt = old(self)@.rtt.after_response(now, response.processing_delay_us);
                final(self)@ == (SenderView {
                    rtt,
                    stats: RistConnStats {
                        rtt_us: shown_rtt(rtt, old(self)@.stats.rtt_us),
                        ..old(self)@.stats
                    },
                    ..old(self)@
                })
            }),
    {
        self.rtt_estimator.on_response(
            now,
            response.timestamp_msw,
            response.timestamp_lsw,
            response.processing_delay_us,
        );
        if let Some(rtt) = self.rtt_estimator.srtt() {
            self.stats.rtt_us = (rtt.as_micros() % 0x1_0000_0000_0000_0000) as u64;
        }
    }

    /// The periodic report: SR, SDES, and an echo request when one is due.
    pub fn on_tick(&mut self, now: Instant) -> (b: BytesMut)
        requires
            old(self).wf(),
        ensures
            final(self).wf(),
            final(self)@ == old(self)@.after_tick(now),
            exists|wall: SystemTime|
                octets::written(b) == rtcp::compound_wire(
                    #[trigger] old(self)@.tick_packets(now, wall),
                ),
    {
        let wall: SystemTime = SystemTime::now();
        self.on_tick_at(now, wall)
    }

    /// The periodic report of the instant `now`, at which the wall clock shows
    /// `wall`.
    pub fn on_tick_at(&mut self, now: Instant, wall: SystemTime) -> (b: BytesMut)
        requires
            old(self).wf(),
        ensures
            final(self).wf(),
            final(self)@ == old(self)@.after_tick(now),
            octets::written(b) == rtcp::compound_wire(old(self)@.tick_packets(now, wall)),
    {
        let mut packets: Vec<RtcpPacket> = Vec::new();
        packets.push(RtcpPacket::SenderReport(self.rtcp_state.generate_sr_at(now, wall)));
        packets.push(RtcpPacket::Sdes(self.rtcp_state.generate_sdes()));
        if self.rtt_echo_enabled && self.rtt_estimator.should_send_request(now) {
            let (msw, lsw): (u32, u32) = self.rtt_estimator.generate_request(now);
            packets.push(
                RtcpPacket::App(
                    RistApp::RttEchoRequest(
                        RttEchoRequest {
                            ssrc: self.ssrc,
                            timestamp_msw: msw,
                            timestamp_lsw: lsw,
                        },
                    ),
                ),
            );
        }
        let compound = RtcpCompound { packets };
        proof {
            let plan = old(self)@.tick_packets(now, wall);
            assert(compound@ =~= plan);
            lemma_tick_fits(old(self)@, now, wall);
        }
        compound.serialize()
    }

    /// The counters since the last call. The counts start over; the round-trip
    /// time and the jitter stay.
    pub fn take_stats(&mut self) -> (s: RistConnStats)
        requires
            old(self).wf(),
        ensures
            final(self).wf(),
            s == old(self)@.stats,
            final(self)@ == (SenderView {
                stats: RistConnStats {
                    rtt_us: s.rtt_us,
                    jitter_us: s.jitter_us,
                    ..RistConnStats::zero()
                },
                ..old(self)@
            }),
    {
        let taken: RistConnStats = self.stats;
        self.stats = RistConnStats::new();
        self.stats.rtt_us = taken.rtt_us;
        self.stats.jitter_us = taken.jitter_us;
        taken
    }
}

/// Ten times a span, at most the longest span there is.
pub open spec fn ten_times(span: Duration) -> Duration {
    Duration {
        nanos: if span.nanos * 10 > u128::MAX {
            u128::MAX
        } else {
            (span.nanos * 10) as u128
        },
    }
}

/// Write an RTP header directly into a buffer.
pub(crate) fn write_rtp_header(buf: &mut BytesMut, ssrc: u32, seq: u16, timestamp: u32)
    requires
        octets::written(*old(buf)).len() + RTP_HEADER_SIZE <= isize::MAX,
    ensures
        octets::written(*final(buf)) == octets::written(*old(buf)) + media_header(
            ssrc,
            seq,
            timestamp,
        ).wire(),
        octets::written(*final(buf)).len() == octets::written(*old(buf)).len() + RTP_HEADER_SIZE,
{
    octets::put_u8(buf, 0x80);
    octets::put_u8(buf, 33);
    octets::put_u16(buf, seq);
    octets::put_u32(buf, timestamp);
    octets::put_u32(buf, ssrc);
    assert(octets::written(*buf) =~= octets::written(*old(buf)) + media_header(
        ssrc,
        seq,
        timestamp,
    ).wire());
}

/// A report fits one buffer.
proof fn lemma_tick_fits(v: SenderView, now: Instant, wall: SystemTime)
    requires
        name_fits(v.rtcp.cname),
    ensures
        rtcp::compound_wire(v.tick_packets(now, wall)).len() <= isize::MAX,
{
    let plan = v.tick_packets(now, wall);
    let first = Seq::empty().push(plan[0]);
    let second = first.push(plan[1]);
    rtcp::lemma_compound_push(Seq::empty(), plan[0]);
    rtcp::lemma_compound_push(first, plan[1]);
    reveal(RtcpPacketView::wire);
    if v.asks_echo(now) {
        rtcp::lemma_compound_push(second, plan[2]);
        assert(second.push(plan[2]) =~= plan);
    } else {
        assert(second =~= plan);
    }
}

/// How many packets a list of actions sends again.
pub open spec fn retransmits(actions: Seq<SenderAction>) -> nat
    decreases actions.len(),
{
    if actions.len() == 0 {
        0
    } else {
        retransmits(actions.drop_last()) + if actions.last() is Retransmit {
            1nat
        } else {
            0
        }
    }
}

/// Whether every packet that the actions send again is held.
pub open spec fn all_held(actions: Seq<SenderAction>, held: Set<u16>) -> bool {
    forall|i: int|
        0 <= i < actions.len() ==> (#[trigger] actions[i] matches SenderAction::Retransmit { seq }
            ==> held.contains(seq))
}

/// What the service keeps as it goes on from `start`: each packet sent again
/// takes from the budget, and so does each request.
spec fn accounted(start: ServiceView, now: ServiceView, held: Set<u16>) -> bool {
    &&& retransmits(now.actions) + now.budget.retx == retransmits(start.actions)
        + start.budget.retx
    &&& now.requested + now.budget.scan == start.requested + start.budget.scan
    &&& all_held(start.actions, held) ==> all_held(now.actions, held)
}

proof fn lemma_one_accounted(service: ServiceView, seq: u16, held: Set<u16>)
    ensures
        accounted(service, service.one(seq, held), held),
{
    let after = service.one(seq, held);
    if after.actions.len() > service.actions.len() {
        assert(after.actions.drop_last() =~= service.actions);
    }
}

proof fn lemma_many_accounted(service: ServiceView, seqs: Seq<u16>, held: Set<u16>)
    ensures
        accounted(service, service.many(seqs, held), held),
    decreases seqs.len(),
{
    if seqs.len() > 0 {
        lemma_many_accounted(service, seqs.drop_last(), held);
        lemma_one_accounted(service.many(seqs.drop_last(), held), seqs.last(), held);
    }
}

proof fn lemma_lists_accounted(service: ServiceView, lists: Seq<Seq<u16>>, held: Set<u16>)
    ensures
        accounted(service, service.lists(lists, held), held),
    decreases lists.len(),
{
    if lists.len() > 0 {
        lemma_lists_accounted(service, lists.drop_last(), held);
        lemma_many_accounted(service.lists(lists.drop_last(), held), lists.last(), held);
    }
}

proof fn lemma_packet_accounted(
    service: ServiceView,
    p: RtcpPacketView,
    ssrc: u32,
    held: Set<u16>,
)
    ensures
        accounted(service, service.packet(p, ssrc, held), held),
{
    match p {
        RtcpPacketView::Nack(nack) => {
            lemma_lists_accounted(service, nack_lists(nack.entries), held);
        },
        RtcpPacketView::App(RistAppView::RangeNack(nack)) => {
            lemma_lists_accounted(service, pair_lists(nack.entries), held);
        },
        _ => {
            let after = service.packet(p, ssrc, held);
            if after.actions.len() > service.actions.len() {
                assert(after.actions.drop_last() =~= service.actions);
            }
        },
    }
}

proof fn lemma_packets_accounted(
    service: ServiceView,
    packets: Seq<RtcpPacketView>,
    ssrc: u32,
    held: Set<u16>,
)
    ensures
        accounted(service, service.packets(packets, ssrc, held), held),
    decreases packets.len(),
{
    if packets.len() > 0 {
        lemma_packets_accounted(service, packets.drop_last(), ssrc, held);
        lemma_packet_accounted(
            service.packets(packets.drop_last(), ssrc, held),
            packets.last(),
            ssrc,
            held,
        );
    }
}

/// One datagram cannot pull the ring out repeatedly: whatever it asks for, it
/// gets at most its budget of packets sent again, all of them still held, and
/// at most its budget of lookups.
pub proof fn law_datagram_work_is_bounded(v: SenderView, packets: Seq<RtcpPacketView>)
    ensures
        retransmits(v.served(packets).actions) <= NackWorkBudget::sized(v.ring.capacity).retx,
        v.served(packets).requested <= NackWorkBudget::sized(v.ring.capacity).scan,
        all_held(v.served(packets).actions, v.ring.packets.dom()),
{
    lemma_packets_accounted(
        ServiceView::fresh(NackWorkBudget::sized(v.ring.capacity)),
        packets,
        v.ssrc,
        v.ring.packets.dom(),
    );
}

/// A NACK that names another source is not served.
pub proof fn law_foreign_nack_is_not_served(
    service: ServiceView,
    p: RtcpPacketView,
    ssrc: u32,
    held: Set<u16>,
)
    requires
        match p {
            RtcpPacketView::Nack(nack) => !guard::targets(nack.media_ssrc, ssrc),
            RtcpPacketView::App(RistAppView::RangeNack(nack)) => !guard::targets(
                nack.media_ssrc,
                ssrc,
            ),
            _ => false,
        },
    ensures
        service.packet(p, ssrc, held) == service,
{
}

/// While the peer is live, a datagram from another IP changes nothing and is
/// not served.
pub proof fn law_stranger_changes_nothing(
    v: SenderView,
    s: Seq<u8>,
    from: SocketAddr,
    at: Instant,
)
    requires
        guard::held_for_peer(v.peer_live, at),
        from.ip != v.remote_rtcp.ip,
    ensures
        v.after_rtcp(s, from, at).0 == v,
        !(v.after_rtcp(s, from, at).1 is Serve),
{
}

/// A datagram that does not decode never moves the peer.
pub proof fn law_noise_changes_nothing(v: SenderView, s: Seq<u8>, from: SocketAddr, at: Instant)
    requires
        rtcp::compound_parsed(s) is Err,
    ensures
        v.after_rtcp(s, from, at) == (v, ReactionView::Undecodable),
{
}

/// The first `n` of `seqs`, or all where there are no more.
pub open spec fn first_of(seqs: Seq<u16>, n: int) -> Seq<u16> {
    if seqs.len() <= n {
        seqs
    } else {
        seqs.take(n)
    }
}

/// Those of `seqs` that are held, in order.
pub open spec fn held_of(seqs: Seq<u16>, held: Set<u16>) -> Seq<u16>
    decreases seqs.len(),
{
    if seqs.len() == 0 {
        Seq::empty()
    } else if held.contains(seqs.last()) {
        held_of(seqs.drop_last(), held).push(seqs.last())
    } else {
        held_of(seqs.drop_last(), held)
    }
}

/// What requests for `seqs` make the sender send again: of the numbers that
/// the lookups reach, those held, as far as the budget of retransmits goes.
pub open spec fn sent_again(budget: NackWorkBudget, seqs: Seq<u16>, held: Set<u16>) -> Seq<u16> {
    first_of(held_of(first_of(seqs, budget.scan as int), held), budget.retx as int)
}

/// The actions that send `seqs` again.
pub open spec fn retransmit_all(seqs: Seq<u16>) -> Seq<SenderAction> {
    seqs.map_values(|seq: u16| SenderAction::Retransmit { seq })
}

/// The numbers that the actions send again, in order.
pub open spec fn resent(actions: Seq<SenderAction>) -> Seq<u16>
    decreases actions.len(),
{
    if actions.len() == 0 {
        Seq::empty()
    } else {
        match actions.last() {
            SenderAction::Retransmit { seq } => resent(actions.drop_last()).push(seq),
            _ => resent(actions.drop_last()),
        }
    }
}

proof fn lemma_held_len(seqs: Seq<u16>, held: Set<u16>)
    ensures
        held_of(seqs, held).len() <= seqs.len(),
    decreases seqs.len(),
{
    if seqs.len() > 0 {
        lemma_held_len(seqs.drop_last(), held);
    }
}

/// The held numbers of a longer list start with those of a shorter one.
proof fn lemma_held_prefix(seqs: Seq<u16>, held: Set<u16>, k: int)
    requires
        0 <= k <= seqs.len(),
    ensures
        held_of(seqs.take(k), held).len() <= held_of(seqs, held).len(),
        held_of(seqs, held).take(held_of(seqs.take(k), held).len() as int) == held_of(
            seqs.take(k),
            held,
        ),
    decreases seqs.len() - k,
{
    let near = held_of(seqs.take(k), held);
    let all = held_of(seqs, held);
    if k < seqs.len() {
        lemma_held_prefix(seqs, held, k + 1);
        assert(seqs.take(k + 1).drop_last() =~= seqs.take(k));
        let next = held_of(seqs.take(k + 1), held);
        assert(all.take(near.len() as int) =~= all.take(next.len() as int).take(near.len() as int));
        assert(next.take(near.len() as int) =~= near);
    } else {
        assert(seqs.take(k) =~= seqs);
        assert(all.take(near.len() as int) =~= near);
    }
}

/// Where the service stands after a list: it is spent once a number lies
/// beyond the lookups, or more of those reached are held than may be sent.
proof fn lemma_list_is_served(service: ServiceView, seqs: Seq<u16>, held: Set<u16>)
    requires
        !service.spent,
    ensures
        ({
            let after = service.many(seqs, held);
            let scan = service.budget.scan as int;
            let reached = held_of(first_of(seqs, scan), held);
            &&& after.spent <==> seqs.len() > scan || reached.len() > service.budget.retx
            &&& after.actions == service.actions + retransmit_all(
                sent_again(service.budget, seqs, held),
            )
            &&& !after.spent ==> after.budget.scan == scan - seqs.len() && after.budget.retx
                == service.budget.retx - reached.len()
        }),
    decreases seqs.len(),
{
    let after = service.many(seqs, held);
    let scan = service.budget.scan as int;
    let retx = service.budget.retx as int;
    if seqs.len() == 0 {
        assert(after.actions =~= service.actions + retransmit_all(
            sent_again(service.budget, seqs, held),
        ));
    } else {
        let shorter = seqs.drop_last();
        let before = service.many(shorter, held);
        lemma_list_is_served(service, shorter, held);
        if shorter.len() >= scan {
            assert(first_of(seqs, scan) =~= first_of(shorter, scan));
        } else {
            let near = held_of(shorter, held);
            let all = held_of(seqs, held);
            if before.spent {
                assert(first_of(all, retx) =~= first_of(near, retx));
            } else if held.contains(seqs.last()) {
                if near.len() < retx {
                    assert(retransmit_all(all) =~= retransmit_all(near).push(
                        SenderAction::Retransmit { seq: seqs.last() },
                    ));
                    assert(after.actions =~= service.actions + retransmit_all(all));
                } else {
                    assert(first_of(all, retx) =~= first_of(near, retx));
                }
            }
        }
    }
}

/// A list of requests, however long, makes the sender send again exactly the
/// held numbers that its lookups reach, in order, as far as its retransmits go.
pub proof fn law_service_sends_the_first_held(
    service: ServiceView,
    seqs: Seq<u16>,
    held: Set<u16>,
)
    requires
        !service.spent,
    ensures
        service.many(seqs, held).actions == service.actions + retransmit_all(
            sent_again(service.budget, seqs, held),
        ),
{
    lemma_list_is_served(service, seqs, held);
}

/// A held number that the lookups reach is sent again, unless as many held
/// numbers before it on the list as may be sent were.
pub proof fn law_reached_request_is_served(
    service: ServiceView,
    seqs: Seq<u16>,
    held: Set<u16>,
    k: int,
)
    requires
        !service.spent,
        0 <= k < seqs.len(),
        k < service.budget.scan,
        held.contains(seqs[k]),
        held_of(seqs.take(k), held).len() < service.budget.retx,
    ensures
        service.many(seqs, held).actions.contains(SenderAction::Retransmit { seq: seqs[k] }),
        sent_again(service.budget, seqs, held).contains(seqs[k]),
{
    let reached = first_of(seqs, service.budget.scan as int);
    let near = held_of(seqs.take(k), held);
    let all = held_of(reached, held);
    let sent = sent_again(service.budget, seqs, held);
    let after = service.many(seqs, held);
    assert(reached.take(k + 1).drop_last() =~= seqs.take(k));
    assert(reached.take(k + 1).last() == seqs[k]);
    lemma_held_prefix(reached, held, k + 1);
    assert(all.take(near.len() as int + 1)[near.len() as int] == seqs[k]);
    assert(sent[near.len() as int] == seqs[k]);
    lemma_list_is_served(service, seqs, held);
    assert(after.actions[(service.actions.len() + near.len()) as int] == SenderAction::Retransmit {
        seq: seqs[k],
    });
}

/// A list with a held number that the lookups reach is never left without an
/// answer: as long as anything may be sent, something is.
pub proof fn law_some_request_is_served(
    service: ServiceView,
    seqs: Seq<u16>,
    held: Set<u16>,
    k: int,
)
    requires
        !service.spent,
        service.budget.retx > 0,
        0 <= k < seqs.len(),
        k < service.budget.scan,
        held.contains(seqs[k]),
    ensures
        service.many(seqs, held).actions.len() > service.actions.len(),
        sent_again(service.budget, seqs, held).len() > 0,
{
    let reached = first_of(seqs, service.budget.scan as int);
    assert(reached.take(k + 1).last() == seqs[k]);
    lemma_held_prefix(reached, held, k + 1);
    lemma_list_is_served(service, seqs, held);
}

/// Requests within the budget are all served: each packet on the list that is
/// still held is sent again.
pub proof fn law_requests_within_budget_are_served(
    service: ServiceView,
    seqs: Seq<u16>,
    held: Set<u16>,
    k: int,
)
    requires
        !service.spent,
        seqs.len() <= service.budget.scan,
        seqs.len() <= service.budget.retx,
        0 <= k < seqs.len(),
        held.contains(seqs[k]),
    ensures
        !service.many(seqs, held).spent,
        service.many(seqs, held).actions.contains(SenderAction::Retransmit { seq: seqs[k] }),
{
    lemma_held_len(seqs, held);
    lemma_held_len(seqs.take(k), held);
    lemma_list_is_served(service, seqs, held);
    law_reached_request_is_served(service, seqs, held, k);
}

/// The numbers that sub-packet `p` asks the sender of `ssrc` for.
pub open spec fn asked_by(p: RtcpPacketView, ssrc: u32) -> Seq<u16> {
    match p {
        RtcpPacketView::Nack(nack) => if guard::targets(nack.media_ssrc, ssrc) {
            rtcp_nack::flat(nack_lists(nack.entries))
        } else {
            Seq::empty()
        },
        RtcpPacketView::App(RistAppView::RangeNack(nack)) => if guard::targets(
            nack.media_ssrc,
            ssrc,
        ) {
            rtcp_nack::flat(pair_lists(nack.entries))
        } else {
            Seq::empty()
        },
        _ => Seq::empty(),
    }
}

/// The numbers that sub-packets `packets` ask the sender of `ssrc` for, in order.
pub open spec fn asked_by_all(packets: Seq<RtcpPacketView>, ssrc: u32) -> Seq<u16>
    decreases packets.len(),
{
    if packets.len() == 0 {
        Seq::empty()
    } else {
        asked_by_all(packets.drop_last(), ssrc) + asked_by(packets.last(), ssrc)
    }
}

/// Whether two services have looked up as much, have sent the same again, and
/// may do the same work.
spec fn same_work(a: ServiceView, b: ServiceView) -> bool {
    &&& a.budget == b.budget
    &&& a.spent == b.spent
    &&& a.requested == b.requested
    &&& resent(a.actions) == resent(b.actions)
}

proof fn lemma_many_same_work(a: ServiceView, b: ServiceView, seqs: Seq<u16>, held: Set<u16>)
    requires
        same_work(a, b),
    ensures
        same_work(a.many(seqs, held), b.many(seqs, held)),
    decreases seqs.len(),
{
    if seqs.len() > 0 {
        let (c, d) = (a.many(seqs.drop_last(), held), b.many(seqs.drop_last(), held));
        let seq = seqs.last();
        lemma_many_same_work(a, b, seqs.drop_last(), held);
        let again = SenderAction::Retransmit { seq };
        assert(c.actions.push(again).drop_last() =~= c.actions);
        assert(d.actions.push(again).drop_last() =~= d.actions);
    }
}

/// A spent service stays as it is.
proof fn lemma_spent_many(service: ServiceView, seqs: Seq<u16>, held: Set<u16>)
    requires
        service.spent,
    ensures
        service.many(seqs, held) == service,
    decreases seqs.len(),
{
    if seqs.len() > 0 {
        lemma_spent_many(service, seqs.drop_last(), held);
    }
}

/// The sub-packets of a datagram send again what one list of all that they ask
/// for would.
proof fn lemma_packets_as_one_list(
    service: ServiceView,
    packets: Seq<RtcpPacketView>,
    ssrc: u32,
    held: Set<u16>,
)
    ensures
        same_work(
            service.packets(packets, ssrc, held),
            service.many(asked_by_all(packets, ssrc), held),
        ),
    decreases packets.len(),
{
    if packets.len() > 0 {
        let shorter = packets.drop_last();
        let p = packets.last();
        let asked = asked_by_all(shorter, ssrc);
        let before = service.packets(shorter, ssrc, held);
        let after = service.packets(packets, ssrc, held);
        lemma_packets_as_one_list(service, shorter, ssrc, held);
        lemma_many_in_two(service, asked, asked_by(p, ssrc), held);
        lemma_many_same_work(before, service.many(asked, held), asked_by(p, ssrc), held);
        if before.spent {
            lemma_spent_many(before, asked_by(p, ssrc), held);
        } else {
            match p {
                RtcpPacketView::Nack(nack) => {
                    lemma_lists_are_flat(before, nack_lists(nack.entries), held);
                },
                RtcpPacketView::App(RistAppView::RangeNack(nack)) => {
                    lemma_lists_are_flat(before, pair_lists(nack.entries), held);
                },
                _ => {
                    if after.actions.len() > before.actions.len() {
                        assert(after.actions.drop_last() =~= before.actions);
                    }
                },
            }
        }
    }
}

/// The actions that send numbers again send those numbers.
proof fn lemma_resent_are_the_numbers(seqs: Seq<u16>)
    ensures
        resent(retransmit_all(seqs)) == seqs,
    decreases seqs.len(),
{
    let actions = retransmit_all(seqs);
    if seqs.len() > 0 {
        assert(actions.drop_last() =~= retransmit_all(seqs.drop_last()));
        lemma_resent_are_the_numbers(seqs.drop_last());
        assert(resent(actions) =~= seqs);
    } else {
        assert(resent(actions) =~= seqs);
    }
}

/// A datagram, however much it asks for in however many NACKs, makes the
/// sender send again exactly the held numbers that its lookups reach, in the
/// order in which it names them, as far as its retransmits go.
pub proof fn law_datagram_sends_the_first_held(v: SenderView, packets: Seq<RtcpPacketView>)
    ensures
        resent(v.served(packets).actions) == sent_again(
            NackWorkBudget::sized(v.ring.capacity),
            asked_by_all(packets, v.ssrc),
            v.ring.packets.dom(),
        ),
{
    let held = v.ring.packets.dom();
    let fresh = ServiceView::fresh(NackWorkBudget::sized(v.ring.capacity));
    let asked = asked_by_all(packets, v.ssrc);
    let sent = sent_again(fresh.budget, asked, held);
    lemma_packets_as_one_list(fresh, packets, v.ssrc, held);
    lemma_list_is_served(fresh, asked, held);
    assert(fresh.actions + retransmit_all(sent) =~= retransmit_all(sent));
    lemma_resent_are_the_numbers(sent);
}

/// Media that was sent can be sent again: it is held as it was sent, and
/// stays held until a full ring of newer packets has followed it.
pub proof fn law_sent_media_is_held(v: SenderView, payload: Seq<u8>, now: Instant, seq: u16)
    requires
        ring::ring_fits(v.ring.capacity),
    ensures
        v.after_media(payload, now).ring.packets.dom().contains(v.next_seq),
        v.after_media(payload, now).ring.packets[v.next_seq] == v.media_packet(payload, now),
        v.ring.packets.dom().contains(seq) && 0 < serial::ahead(seq, v.next_seq) < v.ring.capacity
            ==> v.after_media(payload, now).ring.packets.dom().contains(seq)
            && v.after_media(payload, now).ring.packets[seq] == v.ring.packets[seq],
{
    if 0 < serial::ahead(seq, v.next_seq) < v.ring.capacity {
        nack_tracker::law_recent_packets_are_found(
            v.ring,
            seq,
            Seq::empty(),
            v.next_seq,
            v.media_packet(payload, now),
        );
    }
}

/// How the session goes on as it sends.
proof fn lemma_after_all_media(v: SenderView, media: Seq<(Seq<u8>, Instant)>)
    ensures
        v.after_all_media(media).next_seq == serial::plus(v.next_seq, media.len() as int),
        v.after_all_media(media).ring.capacity == v.ring.capacity,
    decreases media.len(),
{
    if media.len() > 0 {
        lemma_after_all_media(v, media.drop_last());
    }
}

/// However much is sent, each of the last packets that the ring has room for
/// can be sent again, as it was sent.
pub proof fn law_recent_media_can_be_sent_again(
    v: SenderView,
    media: Seq<(Seq<u8>, Instant)>,
    k: int,
)
    requires
        ring::ring_fits(v.ring.capacity),
        0 <= k < media.len(),
        media.len() - k <= v.ring.capacity,
        media.len() - k <= 65_536,
    ensures
        ({
            let seq = serial::plus(v.next_seq, k);
            let sent = v.after_all_media(media.take(k)).media_packet(media[k].0, media[k].1);
            let after = v.after_all_media(media);
            after.ring.packets.dom().contains(seq) && after.ring.packets[seq] == sent
        }),
    decreases media.len(),
{
    let shorter = media.drop_last();
    let before = v.after_all_media(shorter);
    let seq = serial::plus(v.next_seq, k);
    lemma_after_all_media(v, shorter);
    if k == shorter.len() {
        assert(media.take(k) =~= shorter);
    } else {
        law_recent_media_can_be_sent_again(v, shorter, k);
        assert(shorter.take(k) =~= media.take(k));
        lemma_steps_apart(v.next_seq, k, shorter.len() as int);
        law_sent_media_is_held(before, media.last().0, media.last().1, seq);
    }
}

proof fn lemma_steps_apart(s: u16, a: int, b: int)
    requires
        0 <= b - a < 65_536,
    ensures
        serial::ahead(serial::plus(s, a), serial::plus(s, b)) == b - a,
{
}

/// A retransmitted packet is the packet that was sent, with the retransmit
/// flag in its SSRC.
pub proof fn law_retransmit_is_the_packet(ssrc: u32, seq: u16, timestamp: u32, payload: Seq<u8>)
    requires
        ssrc % 2 == 0,
    ensures
        flagged(media_header(ssrc, seq, timestamp).wire() + payload) == media_header(
            (ssrc + 1) as u32,
            seq,
            timestamp,
        ).wire() + payload,
{
    let sent = media_header(ssrc, seq, timestamp).wire() + payload;
    let again = media_header((ssrc + 1) as u32, seq, timestamp).wire() + payload;
    octets::lemma_be32_of_even(ssrc);
    assert(sent[11] == octets::be32(ssrc)[3]);
    assert(flagged(sent) =~= again);
}

proof fn lemma_many_in_two(service: ServiceView, a: Seq<u16>, b: Seq<u16>, held: Set<u16>)
    ensures
        service.many(a + b, held) == service.many(a, held).many(b, held),
    decreases b.len(),
{
    if b.len() == 0 {
        assert(a + b =~= a);
    } else {
        lemma_many_in_two(service, a, b.drop_last(), held);
        assert((a + b).drop_last() =~= a + b.drop_last());
    }
}

proof fn lemma_lists_are_flat(service: ServiceView, lists: Seq<Seq<u16>>, held: Set<u16>)
    ensures
        service.lists(lists, held) == service.many(rtcp_nack::flat(lists), held),
    decreases lists.len(),
{
    if lists.len() > 0 {
        lemma_lists_are_flat(service, lists.drop_last(), held);
        lemma_many_in_two(service, rtcp_nack::flat(lists.drop_last()), lists.last(), held);
    }
}

/// A receiver that asks for packets gets those that are still held, in the
/// order of its list, as far as the lookups and the retransmits of one datagram
/// go: the request names the source, and lists the packets in ascending order.
pub proof fn law_requested_packets_are_sent_again(
    v: SenderView,
    report: RtcpPacketView,
    sender_ssrc: u32,
    media_ssrc: u32,
    lost: Seq<u16>,
    k: int,
)
    requires
        report is ReceiverReport,
        guard::targets(media_ssrc, v.ssrc),
        forall|i: int, j: int| 0 <= i < j < lost.len() ==> lost[i] < lost[j],
        0 <= k < lost.len(),
        v.ring.packets.dom().contains(lost[k]),
        k < NackWorkBudget::sized(v.ring.capacity).scan,
        held_of(lost.take(k), v.ring.packets.dom()).len() < NackWorkBudget::sized(
            v.ring.capacity,
        ).retx,
    ensures
        ({
            let nack = RtcpPacketView::Nack(
                NackPacketView {
                    sender_ssrc,
                    media_ssrc,
                    entries: NackEntriesView::Bitmask(rtcp_nack::packed_bitmasks(lost)),
                },
            );
            v.served(seq![report, nack]).actions.contains(
                SenderAction::Retransmit { seq: lost[k] },
            )
        }),
{
    let nack = RtcpPacketView::Nack(
        NackPacketView {
            sender_ssrc,
            media_ssrc,
            entries: NackEntriesView::Bitmask(rtcp_nack::packed_bitmasks(lost)),
        },
    );
    let held = v.ring.packets.dom();
    let fresh = ServiceView::fresh(NackWorkBudget::sized(v.ring.capacity));
    let entries = rtcp_nack::packed_bitmasks(lost);
    let both = seq![report, nack];
    assert(both.drop_last() =~= seq![report]);
    assert(seq![report].drop_last() =~= Seq::empty());
    assert(fresh.packets(Seq::empty(), v.ssrc, held) == fresh);
    assert(fresh.packets(seq![report], v.ssrc, held) == fresh);
    assert(v.served(both) == fresh.lists(rtcp_nack::lost_lists(entries), held));
    rtcp_nack::law_bitmasks_keep_the_order(lost);
    lemma_lists_are_flat(fresh, rtcp_nack::lost_lists(entries), held);
    law_reached_request_is_served(fresh, lost, held, k);
}

/// The periodic report starts with a sender report, and the receiver reads it
/// as it was made. A name of more than 255 bytes is left out: its length has
/// no place in the packet.
pub proof fn law_report_is_read_as_sent(v: SenderView, now: Instant, wall: SystemTime)
    requires
        vstd::utf8::encode_utf8(v.rtcp.cname).len() <= 255,
    ensures
        v.tick_packets(now, wall)[0] is SenderReport,
        rtcp::compound_parsed(rtcp::compound_wire(v.tick_packets(now, wall))) == Ok::<
            Seq<RtcpPacketView>,
            crate::error::RistErrorView,
        >(v.tick_packets(now, wall)),
{
    let plan = v.tick_packets(now, wall);
    assert forall|i: int| 0 <= i < plan.len() implies (#[trigger] plan[i]).fits() by {}
    rtcp::law_compound_reads_back(plan);
}

/// The answer to an echo request starts with a report, and the requester reads
/// its own timestamp back.
pub proof fn law_echo_reply_is_read_as_sent(ssrc: u32, request: RttEchoRequest, delay: Duration)
    ensures
        echo_compound(ssrc, request, delay)[0] is ReceiverReport,
        rtcp::compound_parsed(rtcp::compound_wire(echo_compound(ssrc, request, delay))) == Ok::<
            Seq<RtcpPacketView>,
            crate::error::RistErrorView,
        >(echo_compound(ssrc, request, delay)),
        echo_response(request, delay).timestamp_msw == request.timestamp_msw,
        echo_response(request, delay).timestamp_lsw == request.timestamp_lsw,
{
    let plan = echo_compound(ssrc, request, delay);
    assert forall|i: int| 0 <= i < plan.len() implies (#[trigger] plan[i]).fits() by {}
    rtcp::law_compound_reads_back(plan);
}

/// The time that the responder takes is not part of the measured round trip,
/// but for the microsecond that it is rounded down to. A delay whose
/// microseconds exceed 32 bits is left out: it is reported as the largest.
pub proof fn law_processing_time_is_not_measured(
    v: RttView,
    request: RttEchoRequest,
    sent: Instant,
    there: Duration,
    delay: Duration,
    back: Duration,
)
    requires
        sent.nanos + there.nanos + delay.nanos + back.nanos <= u128::MAX,
        delay.nanos / 1_000 <= u32::MAX,
    ensures
        ({
            let received = sent.after(there).after(delay).after(back);
            let sample = v.after_request(sent).measured(
                received,
                echo_response(request, delay).processing_delay_us,
            );
            there.nanos + back.nanos <= sample.nanos < there.nanos + back.nanos + 1_000
        }),
{
}

/// A datagram's requests are counted, each one that is looked up: all of them,
/// unless the lookups or the retransmits run out before.
pub proof fn law_requests_are_counted(v: SenderView, packets: Seq<RtcpPacketView>)
    ensures
        ({
            let budget = NackWorkBudget::sized(v.ring.capacity);
            let asked = asked_by_all(packets, v.ssrc);
            let held = held_of(first_of(asked, budget.scan as int), v.ring.packets.dom());
            asked.len() <= budget.scan && held.len() <= budget.retx ==> v.served(packets).requested
                == asked.len()
        }),
{
    let held = v.ring.packets.dom();
    let fresh = ServiceView::fresh(NackWorkBudget::sized(v.ring.capacity));
    let asked = asked_by_all(packets, v.ssrc);
    lemma_packets_as_one_list(fresh, packets, v.ssrc, held);
    lemma_list_is_served(fresh, asked, held);
    lemma_many_accounted(fresh, asked, held);
}

/// What a NACK asks for is what its entries name, in order, where it is for
/// this source; no other packet asks for anything.
pub proof fn law_requests_are_what_the_entries_name(p: RtcpPacketView, ssrc: u32)
    ensures
        match p {
            RtcpPacketView::Nack(nack) => {
                let lists = match nack.entries {
                    NackEntriesView::Bitmask(v) => v.map_values(|e: BitmaskNack| e.lost()),
                    NackEntriesView::Range(v) => v.map_values(|e: RangeNack| e.lost()),
                };
                &&& guard::targets(nack.media_ssrc, ssrc) ==> asked_by(p, ssrc) == rtcp_nack::flat(
                    lists,
                )
                &&& !guard::targets(nack.media_ssrc, ssrc) ==> asked_by(p, ssrc).len() == 0
            },
            RtcpPacketView::App(RistAppView::RangeNack(nack)) => {
                let lists = nack.entries.map_values(
                    |e: (u16, u16)|
                        Seq::new(
                            (e.1 + 1) as nat,
                            |i: int| ((e.0 + i) % 65_536) as u16,
                        ),
                );
                &&& guard::targets(nack.media_ssrc, ssrc) ==> asked_by(p, ssrc) == rtcp_nack::flat(
                    lists,
                )
                &&& !guard::targets(nack.media_ssrc, ssrc) ==> asked_by(p, ssrc).len() == 0
            },
            _ => asked_by(p, ssrc).len() == 0,
        },
{
    if let RtcpPacketView::App(RistAppView::RangeNack(nack)) = p {
        let lists = nack.entries.map_values(
            |e: (u16, u16)| Seq::new((e.1 + 1) as nat, |i: int| ((e.0 + i) % 65_536) as u16),
        );
        assert forall|k: int| 0 <= k < lists.len() implies #[trigger] lists[k] == pair_lists(
            nack.entries,
        )[k] by {
            assert(lists[k] =~= pair_lists(nack.entries)[k]);
        }
        assert(lists =~= pair_lists(nack.entries));
    }
}

/// The echo requests that the actions answer, in order.
pub open spec fn answered(actions: Seq<SenderAction>) -> Seq<RttEchoRequest> {
    actions.filter_map(
        |a: SenderAction|
            match a {
                SenderAction::EchoReply { request } => Some(request),
                _ => None::<RttEchoRequest>,
            },
    )
}

/// The echo responses that the actions take in, in order.
pub open spec fn measured_by(actions: Seq<SenderAction>) -> Seq<RttEchoResponse> {
    actions.filter_map(
        |a: SenderAction|
            match a {
                SenderAction::RttSample { response } => Some(response),
                _ => None::<RttEchoResponse>,
            },
    )
}

/// The echo requests among sub-packets, in order.
pub open spec fn echoes_in(packets: Seq<RtcpPacketView>) -> Seq<RttEchoRequest> {
    packets.filter_map(
        |p: RtcpPacketView|
            match p {
                RtcpPacketView::App(RistAppView::RttEchoRequest(request)) => Some(request),
                _ => None::<RttEchoRequest>,
            },
    )
}

/// The echo responses among sub-packets, in order.
pub open spec fn responses_in(packets: Seq<RtcpPacketView>) -> Seq<RttEchoResponse> {
    packets.filter_map(
        |p: RtcpPacketView|
            match p {
                RtcpPacketView::App(RistAppView::RttEchoResponse(response)) => Some(response),
                _ => None::<RttEchoResponse>,
            },
    )
}

/// Requests for packets add nothing but packets to send again.
proof fn lemma_many_adds_retransmits(service: ServiceView, seqs: Seq<u16>, held: Set<u16>)
    ensures
        answered(service.many(seqs, held).actions) == answered(service.actions),
        measured_by(service.many(seqs, held).actions) == measured_by(service.actions),
    decreases seqs.len(),
{
    if seqs.len() > 0 {
        let before = service.many(seqs.drop_last(), held);
        let again = SenderAction::Retransmit { seq: seqs.last() };
        lemma_many_adds_retransmits(service, seqs.drop_last(), held);
        assert(before.actions.push(again).drop_last() =~= before.actions);
    }
}

proof fn lemma_packets_answer_echoes(
    service: ServiceView,
    packets: Seq<RtcpPacketView>,
    ssrc: u32,
    held: Set<u16>,
)
    requires
        !service.packets(packets, ssrc, held).spent,
        service.actions.len() == 0,
    ensures
        answered(service.packets(packets, ssrc, held).actions) == echoes_in(packets),
        measured_by(service.packets(packets, ssrc, held).actions) == responses_in(packets),
    decreases packets.len(),
{
    if packets.len() > 0 {
        let shorter = packets.drop_last();
        let p = packets.last();
        let before = service.packets(shorter, ssrc, held);
        let after = service.packets(packets, ssrc, held);
        assert(!before.spent);
        lemma_packets_answer_echoes(service, shorter, ssrc, held);
        match p {
            RtcpPacketView::Nack(nack) => {
                lemma_lists_are_flat(before, nack_lists(nack.entries), held);
                lemma_many_adds_retransmits(
                    before,
                    rtcp_nack::flat(nack_lists(nack.entries)),
                    held,
                );
            },
            RtcpPacketView::App(RistAppView::RangeNack(nack)) => {
                lemma_lists_are_flat(before, pair_lists(nack.entries), held);
                lemma_many_adds_retransmits(
                    before,
                    rtcp_nack::flat(pair_lists(nack.entries)),
                    held,
                );
            },
            _ => {
                if after.actions.len() > before.actions.len() {
                    assert(after.actions.drop_last() =~= before.actions);
                }
            },
        }
    } else {
        assert(answered(service.actions) =~= echoes_in(packets));
        assert(measured_by(service.actions) =~= responses_in(packets));
    }
}

/// Every echo request of a datagram is answered and every response taken in, in
/// their order, unless the work for the datagram runs out.
pub proof fn law_echoes_are_answered(v: SenderView, packets: Seq<RtcpPacketView>)
    requires
        !v.served(packets).spent,
    ensures
        answered(v.served(packets).actions) == echoes_in(packets),
        measured_by(v.served(packets).actions) == responses_in(packets),
{
    lemma_packets_answer_echoes(
        ServiceView::fresh(NackWorkBudget::sized(v.ring.capacity)),
        packets,
        v.ssrc,
        v.ring.packets.dom(),
    );
}

/// A datagram that decodes, from the peer's host or from another once the peer
/// has been silent for 12 seconds, is served; RTCP then goes where it came
/// from. Nothing else of the session changes but the count of requests.
pub proof fn law_peer_is_served_and_followed(
    v: SenderView,
    s: Seq<u8>,
    from: SocketAddr,
    at: Instant,
    packets: Seq<RtcpPacketView>,
)
    requires
        rtcp::compound_parsed(s) == Ok::<Seq<RtcpPacketView>, crate::error::RistErrorView>(packets),
    ensures
        ({
            let (w, reaction) = v.after_rtcp(s, from, at);
            let ours = from.ip == v.remote_rtcp.ip || v.peer_live is None || at.nanos
                >= v.peer_live->0.nanos + 12_000_000_000;
            &&& packets.len() == 0 ==> reaction is Empty && w == v
            &&& packets.len() > 0 && !ours ==> reaction is NotOurPeer && w == v
            &&& packets.len() > 0 && ours ==> {
                &&& reaction == (ReactionView::Serve { actions: v.served(packets).actions })
                &&& w.remote_rtcp == from
                &&& w.peer_live == Some(at)
                &&& w.stats.nacks_received == (v.stats.nacks_received + v.served(packets).requested)
                    % 0x1_0000_0000_0000_0000
                &&& w.stats.packets_sent == v.stats.packets_sent
                &&& w.ssrc == v.ssrc && w.next_seq == v.next_seq && w.ring == v.ring
                &&& w.rtcp == v.rtcp && w.rtt == v.rtt
            }
        }),
{
}

/// A media packet by its bytes: version 2 and nothing else in the first, type
/// 33, the number, the media clock, the source, and the payload.
pub proof fn law_media_packet_layout(v: SenderView, payload: Seq<u8>, now: Instant)
    ensures
        ({
            let w = v.media_packet(payload, now);
            &&& w.len() == 12 + payload.len()
            &&& w[0] == 0x80
            &&& w[1] == 33
            &&& layout::int16(w, 2) == v.next_seq
            &&& layout::int32(w, 4) == rtcp_state::rtp_clock(
                v.rtcp.rtp_ts_epoch_system,
                v.rtcp.rtp_ts_epoch,
                now,
            )
            &&& layout::int32(w, 8) == v.ssrc
            &&& w.skip(12) == payload
        }),
{
    let header = media_header(v.ssrc, v.next_seq, v.clock(now));
    let w = v.media_packet(payload, now);
    layout::law_rtp_header_layout(header);
    assert forall|k: int| 0 <= k < 12 implies #[trigger] w[k] == header.wire()[k] by {}
    assert(header.wire()[0] / 64 == 2 && header.wire()[0] / 32 % 2 == 0 && header.wire()[0] / 16 % 2
        == 0 && header.wire()[0] % 16 == 0);
    assert(w.skip(12) =~= payload);
}

/// The payload bytes of a run of media.
pub open spec fn media_total(media: Seq<(Seq<u8>, Instant)>) -> nat
    decreases media.len(),
{
    if media.len() == 0 {
        0
    } else {
        media_total(media.drop_last()) + media.last().0.len()
    }
}

proof fn lemma_wraps_32(n: u32, a: int, b: int)
    ensures
        ((n + a) % 0x1_0000_0000 + b) % 0x1_0000_0000 == (n + (a + b)) % 0x1_0000_0000,
{
}

/// However much is sent, the numbers go up by one each time, and reports count
/// every packet and the bytes of every payload.
pub proof fn law_sent_media_is_counted(v: SenderView, media: Seq<(Seq<u8>, Instant)>)
    requires
        forall|i: int| 0 <= i < media.len() ==> (#[trigger] media[i]).0.len() <= usize::MAX,
    ensures
        ({
            let w = v.after_all_media(media);
            &&& w.next_seq == (v.next_seq + media.len()) % 65_536
            &&& w.rtcp.packet_count == (v.rtcp.packet_count + media.len()) % 0x1_0000_0000
            &&& w.rtcp.octet_count == (v.rtcp.octet_count + media_total(media)) % 0x1_0000_0000
            &&& w.ssrc == v.ssrc && w.rtt == v.rtt && w.stats == v.stats
            &&& w.remote_rtcp == v.remote_rtcp && w.peer_live == v.peer_live
            &&& w.rtcp.rtp_ts_epoch == v.rtcp.rtp_ts_epoch
            &&& w.rtcp.rtp_ts_epoch_system == v.rtcp.rtp_ts_epoch_system
        }),
    decreases media.len(),
{
    if media.len() > 0 {
        let shorter = media.drop_last();
        assert forall|i: int| 0 <= i < shorter.len() implies (#[trigger] shorter[i]).0.len()
            <= usize::MAX by {
            assert(shorter[i] == media[i]);
        }
        assert(media[media.len() - 1].0.len() <= usize::MAX);
        law_sent_media_is_counted(v, shorter);
        lemma_wraps_32(v.rtcp.packet_count, shorter.len() as int, 1);
        lemma_wraps_32(
            v.rtcp.octet_count,
            media_total(shorter) as int,
            media.last().0.len() as int,
        );
    }
}

/// The retransmit flag changes the lowest bit of the SSRC and nothing else.
pub proof fn law_flag_changes_one_bit(packet: Seq<u8>, k: int)
    requires
        0 <= k < packet.len(),
    ensures
        flagged(packet).len() == packet.len(),
        k != 11 ==> flagged(packet)[k] == packet[k],
        k == 11 ==> flagged(packet)[k] % 2 == 1 && flagged(packet)[k] / 2 == packet[k] / 2,
{
}

/// An answer carries the source and the timestamp of its request, and the whole
/// microseconds that it took.
pub proof fn law_answer_carries_the_request(request: RttEchoRequest, delay: Duration)
    ensures
        ({
            let response = echo_response(request, delay);
            &&& response.ssrc == request.ssrc
            &&& response.timestamp_msw == request.timestamp_msw
            &&& response.timestamp_lsw == request.timestamp_lsw
            &&& delay.nanos < 0x1_0000_0000 * 1_000 ==> response.processing_delay_us * 1_000
                <= delay.nanos < (response.processing_delay_us + 1) * 1_000
            &&& delay.nanos >= 0x1_0000_0000 * 1_000 ==> response.processing_delay_us == u32::MAX
        }),
{
}

/// The compound with an answer starts with an empty report of its sender.
pub proof fn law_answer_follows_a_report(ssrc: u32, request: RttEchoRequest, delay: Duration)
    ensures
        ({
            let plan = echo_compound(ssrc, request, delay);
            &&& plan.len() == 2
            &&& plan[0] matches RtcpPacketView::ReceiverReport(rr) && rr.ssrc == ssrc
                && rr.reports.len() == 0
            &&& plan[1] == RtcpPacketView::App(
                RistAppView::RttEchoResponse(echo_response(request, delay)),
            )
        }),
{
}

/// The periodic report holds a sender report and the name, and an echo request
/// when those are enabled and one is due, with the timestamp in two words.
pub proof fn law_periodic_report_holds(v: SenderView, now: Instant, wall: SystemTime)
    ensures
        ({
            let plan = v.tick_packets(now, wall);
            let asks = v.rtt_echo_enabled && v.rtt.request_due(now);
            &&& plan.len() == if asks {
                3int
            } else {
                2
            }
            &&& plan[0] == RtcpPacketView::SenderReport(v.rtcp.report(now, wall))
            &&& plan[1] matches RtcpPacketView::Sdes(sdes) && sdes.ssrc == v.rtcp.ssrc && sdes.cname
                == v.rtcp.cname
            &&& asks ==> (plan[2] matches RtcpPacketView::App(RistAppView::RttEchoRequest(req))
                && req.ssrc == v.ssrc && req.timestamp_msw * 0x1_0000_0000 + req.timestamp_lsw
                == v.rtt.request_timestamp(now))
            &&& v.after_tick(now).rtt == if asks {
                v.rtt.after_request(now)
            } else {
                v.rtt
            }
            &&& v.after_tick(now).rtcp.last_rtcp_time == Some(now)
            &&& v.after_tick(now).rtcp.packet_count == v.rtcp.packet_count
            &&& v.after_tick(now).ring == v.ring && v.after_tick(now).next_seq == v.next_seq
            &&& v.after_tick(now).stats == v.stats
        }),
{
}

/// The counters show the smoothed RTT in whole microseconds.
pub proof fn law_shown_rtt_is_in_microseconds(rtt: RttView, before: u64)
    ensures
        rtt.srtt is None ==> shown_rtt(rtt, before) == before,
        rtt.srtt matches Some(d) ==> (d.nanos / 1_000 <= u64::MAX ==> shown_rtt(rtt, before) * 1_000
            <= d.nanos < (shown_rtt(rtt, before) + 1) * 1_000),
{
}

/// A new session holds nothing to send again, in a ring of at least the
/// capacity that is configured and less than twice that; it sends RTCP to the
/// port after that of media, and asks for an echo every ten reports.
pub proof fn law_session_starts_with_nothing(
    v: SenderView,
    config: RistSocketConfig,
    ssrc: u32,
    first_seq: u16,
    cname: Seq<char>,
    remote_rtp_addr: SocketAddr,
    epoch: Instant,
    epoch_system: SystemTime,
)
    requires
        v.is_new(config, ssrc, first_seq, cname, remote_rtp_addr, epoch, epoch_system),
        config.rtcp_interval.nanos * 10 <= u128::MAX,
        remote_rtp_addr.port < 65_535,
    ensures
        v.ssrc == ssrc && v.next_seq == first_seq,
        v.rtcp.ssrc == ssrc && v.rtcp.cname == cname,
        v.rtcp.packet_count == 0 && v.rtcp.octet_count == 0,
        v.rtcp.rtp_ts_epoch == epoch && v.rtcp.rtp_ts_epoch_system == epoch_system,
        v.rtcp.rtcp_interval == config.rtcp_interval,
        forall|s: u16| !#[trigger] v.ring.packets.dom().contains(s),
        v.ring.capacity >= config.retransmit_buffer_capacity,
        config.retransmit_buffer_capacity > 0 ==> v.ring.capacity < 2
            * config.retransmit_buffer_capacity,
        v.rtt.srtt is None && v.rtt.request_interval.nanos == config.rtcp_interval.nanos * 10,
        v.remote_rtcp.ip == remote_rtp_addr.ip && v.remote_rtcp.port == remote_rtp_addr.port + 1,
        v.peer_live is None,
        v.rtt_echo_enabled == config.rtt_echo_enabled,
        v.stats.packets_sent == 0 && v.stats.packets_retransmitted == 0 && v.stats.nacks_received
            == 0,
{
    let k = choose|k: nat| v.ring.capacity == #[trigger] vstd::arithmetic::power2::pow2(k);
    vstd::arithmetic::power2::lemma_pow2_pos(k);
    if k > 0 {
        vstd::arithmetic::power2::lemma_pow2_unfold(k);
    } else {
        vstd::arithmetic::power2::lemma2_to64();
    }
}

} // verus!
