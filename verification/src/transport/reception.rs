//! What a receiving session does with batches of media and with datagrams.

use vstd::prelude::*;

use crate::error::RistErrorView;
use crate::packet::layout;
use crate::packet::rtcp;
use crate::packet::rtcp::RtcpPacketView;
use crate::packet::rtcp_app::{RistAppView, RttEchoRequest, RttEchoResponse};
use crate::packet::rtcp_nack;
use crate::packet::rtcp_nack::NackEntriesView;
use crate::packet::rtp::RtpPacketView;
use crate::protocol::reorder;
use crate::protocol::reorder::{DrainItemView, InsertOutcome, ReorderView, WindowEntry};
use crate::protocol::requests;
use crate::protocol::requests::NackEvent;
use crate::serial;
use crate::time::{Duration, Instant};
use crate::transport::config::RistSocketConfig;
use crate::transport::net::SocketAddr;
use crate::transport::receiver;
use crate::transport::receiver::{ParsedRtpView, ReceiverView};

verus! {

/// How many numbers were given up over a run of inserts.
pub open spec fn flushed_total(outcomes: Seq<InsertOutcome>) -> nat
    decreases outcomes.len(),
{
    if outcomes.len() == 0 {
        0
    } else {
        flushed_total(outcomes.drop_last()) + outcomes.last().overflow_flushed as nat
    }
}

proof fn lemma_batch_is_valid(buffer: ReorderView, batch: Seq<ParsedRtpView>, now: Instant)
    requires
        buffer.valid(),
    ensures
        receiver::after_batch(buffer, batch, now).0.valid(),
        receiver::after_batch(buffer, batch, now).1.len() == batch.len(),
        batch.len() > 0 ==> receiver::after_batch(buffer, batch, now).0.base is Some,
    decreases batch.len(),
{
    if batch.len() > 0 {
        lemma_batch_is_valid(buffer, batch.drop_last(), now);
        let before = receiver::after_batch(buffer, batch.drop_last(), now).0;
        let p = batch.last();
        reorder::law_window_stays_bounded(before, p.seq, p.payload, now);
        if before.base is Some {
            reorder::law_insert_moves_forward(before, p.seq, p.payload, now);
        }
    }
}

/// An insert leaves a buffered packet where it stands, as far as what it gives
/// up does not reach it.
proof fn lemma_packet_stays(
    v: ReorderView,
    seq: u16,
    data: Seq<u8>,
    now: Instant,
    other: u16,
)
    requires
        v.valid(),
        v.base is Some,
        serial::ahead(v.base->0, other) < v.window.len(),
        v.window[serial::ahead(v.base->0, other)] is Filled,
        v.after_insert(seq, data, now).1.overflow_flushed <= serial::ahead(v.base->0, other),
    ensures
        ({
            let (w, o) = v.after_insert(seq, data, now);
            let at = serial::ahead(v.base->0, other);
            &&& w.base is Some
            &&& serial::ahead(w.base->0, other) == at - o.overflow_flushed
            &&& at - o.overflow_flushed < w.window.len()
            &&& w.window[at - o.overflow_flushed] == v.window[at]
        }),
{
    let (w, o) = v.after_insert(seq, data, now);
    let base = v.base->0;
    let at = serial::ahead(base, other);
    serial::law_steps_and_distance(base, other, 0);
    reorder::law_outcome_tells_what_happened(v, seq, data, now, base);
    if serial::diff(base, seq) >= 0 {
        let moved = serial::ahead(base, w.base->0);
        reorder::law_insert_in_full(v, seq, data, now);
        reorder::law_insert_moves_forward(v, seq, data, now);
        assert(moved == o.overflow_flushed);
        serial::law_steps_and_distance(base, w.base->0, 0);
        serial::law_distance_is_difference(base, moved, at);
        assert(w.base->0 == serial::plus(base, moved));
        assert(other == serial::plus(base, at));
        assert(w.window[at - moved] == v.window[at]);
    } else {
        reorder::law_repeats_change_nothing(v, seq, data, now);
    }
}

/// Each packet of a batch that is neither too late nor there already stands in
/// the buffer after the batch under its own number with its own payload, as
/// long as the later ones of the batch do not push it out.
pub proof fn law_batch_stores_each_packet(
    buffer: ReorderView,
    batch: Seq<ParsedRtpView>,
    now: Instant,
    i: int,
)
    requires
        buffer.valid(),
        0 <= i < batch.len(),
        !receiver::after_batch(buffer, batch, now).1[i].stale,
        !receiver::after_batch(buffer, batch, now).1[i].duplicate,
        flushed_total(receiver::after_batch(buffer, batch, now).1.skip(i + 1)) <= serial::ahead(
            receiver::after_batch(buffer, batch.take(i + 1), now).0.base->0,
            batch[i].seq,
        ),
    ensures
        ({
            let after = receiver::after_batch(buffer, batch, now).0;
            let at = (batch[i].seq - after.base->0) % 65_536;
            &&& after.base is Some
            &&& at < after.window.len()
            &&& after.window[at] == (WindowEntry::Filled { data: batch[i].payload, arrival: now })
            &&& at == serial::ahead(
                receiver::after_batch(buffer, batch.take(i + 1), now).0.base->0,
                batch[i].seq,
            ) - flushed_total(receiver::after_batch(buffer, batch, now).1.skip(i + 1))
        }),
    decreases batch.len(),
{
    let shorter = batch.drop_last();
    let (before, outs) = receiver::after_batch(buffer, shorter, now);
    let (after, all) = receiver::after_batch(buffer, batch, now);
    let p = batch.last();
    lemma_batch_is_valid(buffer, shorter, now);
    lemma_batch_is_valid(buffer, batch, now);
    if i == shorter.len() {
        assert(batch.take(i + 1) =~= batch);
        assert(all.skip(i + 1).len() == 0);
        reorder::law_insert_stores_the_packet(before, p.seq, p.payload, now);
    } else {
        assert(shorter.take(i + 1) =~= batch.take(i + 1));
        assert(all.skip(i + 1).drop_last() =~= outs.skip(i + 1));
        assert(all.skip(i + 1).last() == all.last());
        assert(all[i] == outs[i]);
        law_batch_stores_each_packet(buffer, shorter, now, i);
        lemma_packet_stays(before, p.seq, p.payload, now, batch[i].seq);
    }
}

/// What is delivered of a drain are its packets, all of them and in order;
/// only the losses are left out.
pub proof fn law_delivered_are_the_packets(items: Seq<DrainItemView>)
    ensures
        receiver::delivered(items) == items.filter(|d: DrainItemView| d is Delivered),
    decreases items.len(),
{
    reveal(Seq::filter);
    if items.len() > 0 {
        law_delivered_are_the_packets(items.drop_last());
    } else {
        assert(receiver::delivered(items) =~= items);
    }
}

/// The refusals are the packets that the consumer did not accept.
pub proof fn law_refusals_are_what_is_not_accepted(accepted: Seq<bool>)
    ensures
        receiver::refusals(accepted) == accepted.filter(|a: bool| !a).len(),
    decreases accepted.len(),
{
    reveal(Seq::filter);
    if accepted.len() > 0 {
        law_refusals_are_what_is_not_accepted(accepted.drop_last());
    }
}

/// The bytes of all payloads of a batch.
pub open spec fn payload_total(batch: Seq<ParsedRtpView>) -> nat
    decreases batch.len(),
{
    if batch.len() == 0 {
        0
    } else {
        payload_total(batch.drop_last()) + batch.last().payload.len()
    }
}

/// The arrivals of a batch, as the NACK scheduler sees them.
pub open spec fn arrivals(batch: Seq<ParsedRtpView>, now: Instant) -> Seq<NackEvent> {
    batch.map_values(|p: ParsedRtpView| NackEvent::Packet { seq: p.seq, at: now })
}

proof fn lemma_wraps(n: u64, a: int, b: int)
    ensures
        ((n + a) % 0x1_0000_0000_0000_0000 + b) % 0x1_0000_0000_0000_0000 == (n + (a + b))
            % 0x1_0000_0000_0000_0000,
{
}

/// A batch adds to the counters one for each packet and the bytes of its
/// payloads, one for each that is a retransmission, a duplicate, a recovery or
/// too late, and what was given up; it leaves the others alone.
#[verifier::spinoff_prover]
pub proof fn law_batch_is_counted(
    v: ReceiverView,
    batch: Seq<ParsedRtpView>,
    outcomes: Seq<InsertOutcome>,
    now: Instant,
)
    requires
        batch.len() == outcomes.len(),
    ensures
        ({
            let a = v.stats;
            let b = v.after_packets(batch, outcomes, now).stats;
            let again = batch.filter(|p: ParsedRtpView| p.is_retransmit).len();
            let duplicate = outcomes.filter(|o: InsertOutcome| o.duplicate).len();
            let recovered = outcomes.filter(|o: InsertOutcome| o.recovered).len();
            let stale = outcomes.filter(|o: InsertOutcome| o.stale).len();
            let wrap = 0x1_0000_0000_0000_0000int;
            &&& b.packets_received == (a.packets_received + batch.len()) % wrap
            &&& b.bytes_received == (a.bytes_received + payload_total(batch)) % wrap
            &&& b.retransmits_received == (a.retransmits_received + again) % wrap
            &&& b.duplicates == (a.duplicates + duplicate) % wrap
            &&& b.packets_recovered == (a.packets_recovered + recovered) % wrap
            &&& b.reorder_drops == (a.reorder_drops + stale) % wrap
            &&& b.packets_lost == (a.packets_lost + flushed_total(outcomes)) % wrap
            &&& b.packets_sent == a.packets_sent && b.bytes_sent == a.bytes_sent
            &&& b.packets_retransmitted == a.packets_retransmitted
            &&& b.nacks_received == a.nacks_received && b.nacks_sent == a.nacks_sent
            &&& b.rtt_us == a.rtt_us && b.jitter_us == a.jitter_us
        }),
    decreases batch.len(),
{
    reveal(Seq::filter);
    if batch.len() > 0 {
        let p = batch.last();
        let o = outcomes.last();
        let fewer = batch.drop_last();
        let outs = outcomes.drop_last();
        let a = v.stats;
        let one = |b: bool|
            if b {
                1int
            } else {
                0
            };
        law_batch_is_counted(v, fewer, outs, now);
        lemma_wraps(a.packets_received, fewer.len() as int, 1);
        lemma_wraps(a.bytes_received, payload_total(fewer) as int, p.payload.len() as int);
        lemma_wraps(
            a.retransmits_received,
            fewer.filter(|p: ParsedRtpView| p.is_retransmit).len() as int,
            one(p.is_retransmit),
        );
        lemma_wraps(
            a.duplicates,
            outs.filter(|o: InsertOutcome| o.duplicate).len() as int,
            one(o.duplicate),
        );
        lemma_wraps(
            a.packets_recovered,
            outs.filter(|o: InsertOutcome| o.recovered).len() as int,
            one(o.recovered),
        );
        lemma_wraps(
            a.reorder_drops,
            outs.filter(|o: InsertOutcome| o.stale).len() as int,
            one(o.stale),
        );
        lemma_wraps(a.packets_lost, flushed_total(outs) as int, o.overflow_flushed as int);
    }
}

/// The NACK scheduler sees every packet of a batch, in order; nothing else of
/// the session but the reports and the counters changes.
pub proof fn law_batch_is_seen_by_the_scheduler(
    v: ReceiverView,
    batch: Seq<ParsedRtpView>,
    outcomes: Seq<InsertOutcome>,
    now: Instant,
)
    requires
        batch.len() == outcomes.len(),
    ensures
        ({
            let w = v.after_packets(batch, outcomes, now);
            &&& w.nack == requests::after(v.nack, arrivals(batch, now))
            &&& w.rtt == v.rtt && w.ssrc == v.ssrc
            &&& w.peer == v.peer && w.peer_live == v.peer_live && w.pinned_ip == v.pinned_ip
            &&& w.media_ssrc == v.media_ssrc && w.rtt_echo_enabled == v.rtt_echo_enabled
        }),
    decreases batch.len(),
{
    if batch.len() > 0 {
        let fewer = batch.drop_last();
        law_batch_is_seen_by_the_scheduler(v, fewer, outcomes.drop_last(), now);
        assert(arrivals(batch, now).drop_last() =~= arrivals(fewer, now));
    }
}

/// The reports count every packet of a batch that is no duplicate, and each of
/// those gives a jitter sample, but for the first that is ever timed.
pub proof fn law_batch_is_reported(
    v: ReceiverView,
    batch: Seq<ParsedRtpView>,
    outcomes: Seq<InsertOutcome>,
    now: Instant,
)
    requires
        batch.len() == outcomes.len(),
    ensures
        ({
            let w = v.after_packets(batch, outcomes, now);
            let fresh = outcomes.filter(|o: InsertOutcome| !o.duplicate).len();
            let samples = v.jitter_samples(batch, outcomes, now);
            &&& w.rtcp.packets_received == (v.rtcp.packets_received + fresh) % 0x1_0000_0000
            &&& samples.len() == if v.rtcp.last_transit is None && fresh > 0 {
                fresh - 1
            } else {
                fresh as int
            }
            &&& w.rtcp.last_transit is None <==> v.rtcp.last_transit is None && fresh == 0
        }),
    decreases batch.len(),
{
    let fresh = |o: InsertOutcome| !o.duplicate;
    if batch.len() > 0 {
        let outs = outcomes.drop_last();
        let before = v.after_packets(batch.drop_last(), outs, now);
        let k = outs.filter(fresh).len();
        law_batch_is_reported(v, batch.drop_last(), outs, now);
        lemma_packet_is_reported(before, batch.last(), outcomes.last(), now);
        assert(outcomes.filter(fresh).len() == if outcomes.last().duplicate {
            k
        } else {
            k + 1
        }) by {
            reveal(Seq::filter);
        }
        lemma_wraps_32(v.rtcp.packets_received, k as int);
    } else {
        assert(outcomes.filter(fresh).len() == 0) by {
            reveal(Seq::filter);
        }
    }
}

proof fn lemma_packet_is_reported(
    v: ReceiverView,
    p: ParsedRtpView,
    o: InsertOutcome,
    now: Instant,
)
    ensures
        ({
            let w = v.after_packet(p, o, now);
            let sample = v.rtcp.jitter_sample(p.rtp_ts, p.arrival_us, o.duplicate);
            &&& o.duplicate ==> w.rtcp.packets_received == v.rtcp.packets_received
                && w.rtcp.last_transit == v.rtcp.last_transit && sample is None
            &&& !o.duplicate ==> w.rtcp.packets_received == (v.rtcp.packets_received + 1)
                % 0x1_0000_0000 && w.rtcp.last_transit is Some && (sample is Some
                <==> v.rtcp.last_transit is Some)
        }),
{
}

proof fn lemma_wraps_32(n: u32, a: int)
    ensures
        ((n + a) % 0x1_0000_0000 + 1) % 0x1_0000_0000 == (n + (a + 1)) % 0x1_0000_0000,
{
}

/// Media is let in from the configured host alone, where there is one, and
/// otherwise from the host that is known, or from another once that has been
/// silent for 12 seconds; a new one needs a port after its own.
pub proof fn law_media_admission(v: ReceiverView, from: SocketAddr, now: Instant)
    ensures
        ({
            let known = v.peer is Some && v.peer->0.ip == from.ip;
            let silent = v.peer_live is None || now.nanos >= v.peer_live->0.nanos + 12_000_000_000;
            v.admits_media(from, now) <==> {
                &&& v.pinned_ip is None || v.pinned_ip->0 == from.ip
                &&& v.peer is None || known || silent
                &&& known || from.port < 65_535
            }
        }),
{
}

/// Media from a new host makes the port after its own the one for RTCP; every
/// packet makes the host live and names the media.
pub proof fn law_sender_is_learned(
    v: ReceiverView,
    from: SocketAddr,
    media_ssrc: u32,
    now: Instant,
)
    requires
        from.port < 65_535,
    ensures
        ({
            let w = v.after_media(from, media_ssrc, now);
            let known = v.peer is Some && v.peer->0.ip == from.ip;
            &&& known ==> w.peer == v.peer
            &&& !known ==> w.peer is Some && w.peer->0.ip == from.ip && w.peer->0.port == from.port
                + 1
            &&& w.peer_live == Some(now)
            &&& w.media_ssrc == Some(media_ssrc)
            &&& w.nack == v.nack && w.rtcp == v.rtcp && w.rtt == v.rtt && w.stats == v.stats
            &&& w.pinned_ip == v.pinned_ip
        }),
{
}

/// A media packet by its bytes: the number, the timestamp and the source, in
/// which the lowest bit marks a retransmission.
pub proof fn law_media_fields(s: Seq<u8>, arrival_us: u64)
    ensures
        receiver::media_in(s, arrival_us) is Some <==> RtpPacketView::parsed(s) is Ok,
        receiver::media_in(s, arrival_us) matches Some(p) ==> {
            &&& p.seq == layout::int16(s, 2)
            &&& p.rtp_ts == layout::int32(s, 4)
            &&& p.is_retransmit == (s[11] % 2 == 1)
            &&& p.media_ssrc == layout::int32(s, 8) - s[11] % 2
            &&& p.arrival_us == arrival_us
        },
{
    layout::law_rtp_header_fields(s);
}

/// The payload of a media packet is what follows its header, with the CSRC
/// entries and the extension that the header announces.
pub proof fn law_media_payload_is_the_rest(
    head: Seq<u8>,
    csrcs: Seq<u8>,
    ext: Seq<u8>,
    payload: Seq<u8>,
    arrival_us: u64,
)
    requires
        head.len() == 12,
        head[0] / 64 == 2,
        csrcs.len() == 4 * (head[0] % 16),
        head[0] / 16 % 2 == 0 ==> ext.len() == 0,
        head[0] / 16 % 2 == 1 ==> ext.len() >= 4 && ext.len() == 4 + 4 * layout::int16(ext, 2),
    ensures
        receiver::media_in(head + csrcs + ext + payload, arrival_us) matches Some(p) && p.payload
            == payload && p.seq == layout::int16(head, 2),
{
    layout::law_rtp_payload_is_the_rest(head, csrcs, ext, payload);
}

/// A sender report is kept for the next receiver report: who sent it, the
/// middle of its time, and when it came.
pub proof fn law_sender_report_is_kept(v: ReceiverView, p: RtcpPacketView, now: Instant)
    requires
        p is SenderReport,
    ensures
        ({
            let sr = p->SenderReport_0;
            let w = v.after_rtcp_packet(p, now);
            &&& w.rtcp.sender_ssrc == Some(sr.ssrc)
            &&& w.rtcp.last_sr_ntp == (sr.ntp_msw * 0x1_0000_0000 + sr.ntp_lsw) / 0x1_0000
                % 0x1_0000_0000
            &&& w.rtcp.last_sr_time == Some(now)
            &&& w.rtcp.packets_received == v.rtcp.packets_received && w.rtcp.seqs == v.rtcp.seqs
            &&& w.nack == v.nack && w.rtt == v.rtt && w.stats == v.stats
        }),
{
    layout::law_compact_time_is_the_middle(p->SenderReport_0);
}

/// An echo response that measures a round trip sets the delays of NACKs: the
/// first after half of the smoothed RTT, but not before 20 ms, and the RTT
/// between repeats. It shows the RTT in microseconds.
pub proof fn law_echo_response_sets_the_delays(
    v: ReceiverView,
    resp: RttEchoResponse,
    now: Instant,
)
    requires
        v.rtt.last_request_time is Some,
    ensures
        ({
            let w = v.after_echo(resp, now);
            let srtt = w.rtt.srtt->0.nanos as int;
            &&& w.rtt == v.rtt.after_response(now, resp.processing_delay_us)
            &&& w.rtt.srtt is Some
            &&& srtt >= 40_000_000 ==> w.nack.base_delay.nanos == srtt / 2
            &&& srtt < 40_000_000 ==> w.nack.base_delay.nanos == 20_000_000
            &&& w.nack_repeat().nanos == srtt
            &&& srtt / 1_000 <= u64::MAX ==> w.stats.rtt_us == srtt / 1_000
            &&& w.nack.pending == v.nack.pending && w.nack.expected == v.nack.expected
            &&& w.nack.max_retries == v.nack.max_retries
            &&& w.rtcp == v.rtcp
        }),
{
}

/// The sub-packets of a datagram are taken in one after another; those that are
/// neither sender reports nor echo responses change nothing.
pub proof fn law_datagram_is_taken_in_order(
    v: ReceiverView,
    packets: Seq<RtcpPacketView>,
    p: RtcpPacketView,
    now: Instant,
)
    ensures
        v.after_rtcp_packets(Seq::empty(), now) == v,
        v.after_rtcp_packets(packets.push(p), now) == v.after_rtcp_packets(
            packets,
            now,
        ).after_rtcp_packet(p, now),
        p matches RtcpPacketView::App(RistAppView::RttEchoResponse(resp)) ==> v.after_rtcp_packet(
            p,
            now,
        ) == v.after_echo(resp, now),
        !(p is SenderReport) && !(p matches RtcpPacketView::App(RistAppView::RttEchoResponse(_)))
            ==> v.after_rtcp_packet(p, now) == v,
{
    assert(packets.push(p).drop_last() =~= packets);
}

/// The echo requests of a datagram are answered all, in their order, and
/// nothing else is.
pub proof fn law_every_echo_request_is_answered(packets: Seq<RtcpPacketView>)
    ensures
        receiver::echo_requests(packets) == packets.filter_map(
            |p: RtcpPacketView|
                match p {
                    RtcpPacketView::App(RistAppView::RttEchoRequest(req)) => Some(req),
                    _ => None::<RttEchoRequest>,
                },
        ),
    decreases packets.len(),
{
    if packets.len() > 0 {
        law_every_echo_request_is_answered(packets.drop_last());
        assert(receiver::echo_requests(packets) =~= packets.filter_map(
            |p: RtcpPacketView|
                match p {
                    RtcpPacketView::App(RistAppView::RttEchoRequest(req)) => Some(req),
                    _ => None::<RttEchoRequest>,
                },
        ));
    } else {
        assert(receiver::echo_requests(packets) =~= Seq::empty());
    }
}

/// A request for packets is a report and a NACK that names this receiver, the
/// source seen on the media, and the packets in ascending order.
pub proof fn law_request_names_the_packets(v: ReceiverView, lost: Seq<u16>, now: Instant)
    requires
        forall|i: int, j: int| 0 <= i < j < lost.len() ==> lost[i] < lost[j],
    ensures
        ({
            let plan = v.nack_packets(lost, now);
            &&& plan.len() == 2
            &&& plan[0] == RtcpPacketView::ReceiverReport(v.rtcp.report(now))
            &&& plan[1] matches RtcpPacketView::Nack(nack) && nack.sender_ssrc == v.ssrc && (
            v.media_ssrc matches Some(s) ==> nack.media_ssrc == s) && (v.media_ssrc is None
                && v.rtcp.sender_ssrc is Some ==> nack.media_ssrc == v.rtcp.sender_ssrc->0) && (
            v.media_ssrc is None && v.rtcp.sender_ssrc is None ==> nack.media_ssrc == 0) && (
            nack.entries matches NackEntriesView::Bitmask(entries) && rtcp_nack::flat(
                rtcp_nack::lost_lists(entries),
            ) == lost)
        }),
{
    rtcp_nack::law_bitmasks_keep_the_order(lost);
}

/// Requests go out to a known sender alone, as soon as some packet is due; they
/// are repeated after the RTT, or after 20 ms while there is none.
pub proof fn law_requests_go_to_the_sender(v: ReceiverView, now: Instant, seq: u16)
    ensures
        v.peer is None ==> !v.has_nacks(now) && v.after_pump(now) == v,
        v.peer is Some && v.nack.asked_for(seq, now) ==> v.has_nacks(now) && v.after_pump(
            now,
        ).nack.pending[seq].next_nack_at.nanos == now.after(
            if v.rtt.srtt is Some {
                v.rtt.srtt->0
            } else {
                Duration { nanos: 20_000_000 }
            },
        ).nanos,
        v.has_nacks(now) ==> v.peer is Some && exists|s: u16| #[trigger] v.nack.asked_for(s, now),
        v.after_pump(now).rtt == v.rtt,
        v.after_pump(now).peer == v.peer,
        v.after_pump(now).media_ssrc == v.media_ssrc,
        v.after_pump(now).stats == v.stats,
{
}

/// The periodic report holds a receiver report and the name, and an echo
/// request when those are enabled and one is due, with the timestamp in two
/// words.
pub proof fn law_periodic_report_holds(v: ReceiverView, now: Instant)
    ensures
        ({
            let plan = v.tick_packets(now);
            let asks = v.rtt_echo_enabled && v.rtt.request_due(now);
            &&& plan.len() == if asks {
                3int
            } else {
                2
            }
            &&& plan[0] == RtcpPacketView::ReceiverReport(v.rtcp.report(now))
            &&& plan[1] matches RtcpPacketView::Sdes(sdes) && sdes.ssrc == v.rtcp.ssrc && sdes.cname
                == v.rtcp.cname
            &&& asks ==> (plan[2] matches RtcpPacketView::App(RistAppView::RttEchoRequest(req))
                && req.ssrc == v.ssrc && req.timestamp_msw * 0x1_0000_0000 + req.timestamp_lsw
                == v.rtt.request_timestamp(now))
            &&& v.peer is Some ==> v.after_tick(now).rtt == if asks {
                v.rtt.after_request(now)
            } else {
                v.rtt
            }
            &&& v.peer is Some ==> v.after_tick(now).rtcp == v.rtcp.after_report(now)
            &&& v.peer is None ==> v.after_tick(now) == v
            &&& v.after_tick(now).nack == v.nack && v.after_tick(now).stats == v.stats
        }),
{
}

/// A new session knows no sender unless one is configured, wants nothing, asks
/// for a missed packet first after 50 ms and then as often as configured, and
/// asks for an echo every ten reports.
pub proof fn law_session_starts_with_nothing(
    config: RistSocketConfig,
    ssrc: u32,
    cname: Seq<char>,
)
    requires
        config.rtcp_interval.nanos * 10 <= u128::MAX,
    ensures
        ({
            let v = ReceiverView::at_start(config, ssrc, cname);
            &&& v.ssrc == ssrc && v.rtcp.ssrc == ssrc && v.rtcp.cname == cname
            &&& v.rtcp.seqs is None && v.rtcp.packets_received == 0 && v.rtcp.last_transit is None
            &&& v.rtcp.sender_ssrc is None && v.rtcp.last_sr_time is None
            &&& v.rtcp.rtcp_interval == config.rtcp_interval
            &&& v.nack.expected is None && v.nack.pending.dom() =~= Set::<u16>::empty()
            &&& v.nack.max_retries == config.max_nack_retries
            &&& v.nack.base_delay.nanos == 50_000_000
            &&& v.nack_repeat().nanos == 20_000_000
            &&& v.rtt.srtt is None && v.rtt.request_interval.nanos == config.rtcp_interval.nanos * 10
            &&& v.peer is None && v.peer_live is None && v.media_ssrc is None
            &&& v.pinned_ip is Some <==> config.remote_addr is Some
            &&& config.remote_addr is Some ==> v.pinned_ip->0 == config.remote_addr->0.ip
            &&& v.rtt_echo_enabled == config.rtt_echo_enabled
            &&& v.stats.packets_received == 0 && v.stats.packets_lost == 0 && v.stats.nacks_sent
                == 0
        }),
{
}

/// An RTCP datagram that decodes is taken in from the configured host alone,
/// where there is one, and otherwise from the host that is known, or from
/// another once that has been silent for 12 seconds. RTCP then goes where it
/// came from if the host is new; what is not taken in changes nothing.
pub proof fn law_rtcp_is_taken_from_the_sender(
    v: ReceiverView,
    s: Seq<u8>,
    from: SocketAddr,
    now: Instant,
    packets: Seq<RtcpPacketView>,
)
    requires
        rtcp::compound_parsed(s) == Ok::<Seq<RtcpPacketView>, RistErrorView>(packets),
    ensures
        ({
            let (w, reaction) = v.after_rtcp(s, from, now);
            let known = v.peer is Some && v.peer->0.ip == from.ip;
            let silent = v.peer_live is None || now.nanos >= v.peer_live->0.nanos + 12_000_000_000;
            let ours = (v.pinned_ip is None || v.pinned_ip->0 == from.ip) && (v.peer is None
                || known || silent);
            &&& packets.len() == 0 ==> reaction is Empty && w == v
            &&& packets.len() > 0 && !ours ==> reaction is NotOurPeer && w == v
            &&& packets.len() > 0 && ours ==> {
                &&& reaction is Serve
                &&& known ==> w.peer == v.peer
                &&& !known ==> w.peer == Some(from)
                &&& w.peer_live == Some(now)
                &&& w.pinned_ip == v.pinned_ip && w.media_ssrc == v.media_ssrc && w.ssrc == v.ssrc
            }
        }),
{
    let taken = ReceiverView {
        peer: if v.learns_from(from) {
            Some(from)
        } else {
            v.peer
        },
        peer_live: Some(now),
        ..v
    };
    lemma_sub_packets_keep_the_peer(taken, packets, now);
}

proof fn lemma_sub_packets_keep_the_peer(
    v: ReceiverView,
    packets: Seq<RtcpPacketView>,
    now: Instant,
)
    ensures
        ({
            let w = v.after_rtcp_packets(packets, now);
            &&& w.peer == v.peer && w.peer_live == v.peer_live && w.pinned_ip == v.pinned_ip
            &&& w.media_ssrc == v.media_ssrc && w.ssrc == v.ssrc
        }),
    decreases packets.len(),
{
    if packets.len() > 0 {
        lemma_sub_packets_keep_the_peer(v, packets.drop_last(), now);
    }
}

/// A batch is reported packet by packet: the last one counts in the reports,
/// and gives its jitter sample, by its own number and times, after those before
/// it.
pub proof fn law_batch_is_reported_in_order(
    v: ReceiverView,
    batch: Seq<ParsedRtpView>,
    outcomes: Seq<InsertOutcome>,
    p: ParsedRtpView,
    o: InsertOutcome,
    now: Instant,
)
    requires
        batch.len() == outcomes.len(),
    ensures
        ({
            let before = v.after_packets(batch, outcomes, now).rtcp;
            let samples = v.jitter_samples(batch, outcomes, now);
            let more = v.jitter_samples(batch.push(p), outcomes.push(o), now);
            let sample = before.jitter_sample(p.rtp_ts, p.arrival_us, o.duplicate);
            &&& v.after_packets(batch.push(p), outcomes.push(o), now).rtcp == before.after_packet(
                p.seq,
                p.rtp_ts,
                p.arrival_us,
                o.duplicate,
            )
            &&& sample is Some ==> more == samples.push(sample->0)
            &&& sample is None ==> more == samples
        }),
{
    assert(batch.push(p).drop_last() =~= batch);
    assert(outcomes.push(o).drop_last() =~= outcomes);
}

} // verus!
