//! Sender and receiver sessions, driven by hand with a clock of the test's own.

use bytes::Bytes;
use rist::packet::rtcp::{RtcpCompound, RtcpPacket};
use rist::packet::rtcp_app::{RistApp, RttEchoRequest, RttEchoResponse};
use rist::packet::rtcp_nack::{NackEntries, NackPacket, RangeNack};
use rist::packet::rtcp_rr::ReceiverReport;
use rist::packet::rtcp_sr::SenderReport;
use rist::packet::rtp::RtpHeader;
use rist::protocol::reorder::ReorderBuffer;
use rist::time::{Duration, Instant, SystemTime};
use rist::transport::config::RistSocketConfig;
use rist::transport::net::SocketAddr;
use rist::transport::random::{even_ssrc, low_seq};
use rist::transport::receiver::{
    count_delivery, drain_step, insert_batch, parse_rtp, DrainStep, ReceiverReaction,
    ReceiverSession,
};
use rist::transport::sender::{RtcpReaction, SenderAction, SenderSession};
use rist::transport::stats::RistConnStats;

const SSRC: u32 = 0x1234_5678;
const FIRST: u16 = 65_000;

fn ms(n: u64) -> Duration {
    Duration::from_millis(n)
}

fn start() -> Instant {
    Instant::from_nanos(1_000_000_000_000)
}

fn local(port: u16) -> SocketAddr {
    SocketAddr::v4(127, 0, 0, 1, port)
}

fn other(port: u16) -> SocketAddr {
    SocketAddr::v4(127, 0, 0, 2, port)
}

/// A librist-format Range NACK: PT=204 APP, subtype 0, name "RIST".
fn app_range_nack(media_ssrc: u32, entries: &[(u16, u16)]) -> Vec<u8> {
    let total = 12 + 4 * entries.len();
    let mut buf = Vec::with_capacity(total);
    buf.push(0x80); // V=2, subtype 0 (Range NACK)
    buf.push(204); // PT = APP
    buf.extend_from_slice(&(((total / 4) - 1) as u16).to_be_bytes());
    buf.extend_from_slice(&media_ssrc.to_be_bytes());
    buf.extend_from_slice(b"RIST");
    for (start, extra) in entries {
        buf.extend_from_slice(&start.to_be_bytes());
        buf.extend_from_slice(&extra.to_be_bytes());
    }
    buf
}

fn rtp_packet(ssrc: u32, seq: u16, payload: &[u8]) -> Vec<u8> {
    let mut buf = RtpHeader::new_ts(ssrc, seq, 0).serialize().to_vec();
    buf.extend_from_slice(payload);
    buf
}

fn sender(config: &RistSocketConfig) -> SenderSession {
    SenderSession::new(
        config,
        SSRC,
        FIRST,
        "sender".to_string(),
        local(6000),
        start(),
        SystemTime::from_unix(Duration::from_secs(1_700_000_000)),
    )
}

/// A sender that has sent `count` packets; with a default configuration its
/// ring holds the last 2048 of them.
fn busy_sender(count: usize) -> SenderSession {
    let mut session = sender(&RistSocketConfig::default());
    for i in 0..count {
        session.on_media(&vec![(i & 0xFF) as u8; 200], start());
    }
    session
}

/// Serves a datagram, and returns the packets sent again.
fn retransmitted(session: &mut SenderSession, datagram: &[u8], from: SocketAddr) -> Vec<Bytes> {
    let mut out = Vec::new();
    if let RtcpReaction::Serve { actions } = session.on_rtcp(datagram, from, start()) {
        for action in actions {
            if let SenderAction::Retransmit { seq } = action {
                if let Some(packet) = session.retransmit_packet(seq) {
                    session.on_retransmitted();
                    out.push(packet);
                }
            }
        }
    }
    out
}

// --- Sender ---

#[test]
fn media_is_packed_and_numbered() {
    let mut session = sender(&RistSocketConfig::default());
    assert_eq!(session.ssrc(), SSRC);
    assert_eq!(session.rtcp_peer(), local(6001));
    let first = session.on_media(b"TS", start());
    let second = session.on_media(b"more", start().after(ms(10)));
    session.on_sent(first.len());
    session.on_sent(second.len());
    let (header, size) = RtpHeader::parse(&first).unwrap();
    let clock = ((1_700_000_000u64 + 2_208_988_800) * 90_000 % (1 << 32)) as u32;
    assert_eq!(header, RtpHeader::new_ts(SSRC, FIRST, clock));
    assert_eq!(&first[size..], b"TS");
    let (header, _) = RtpHeader::parse(&second).unwrap();
    assert_eq!(header.sequence_number, FIRST + 1);
    assert_eq!(header.timestamp, clock.wrapping_add(900));
    let stats = session.take_stats();
    assert_eq!(stats.packets_sent, 2);
    assert_eq!(stats.bytes_sent, 14 + 16);
    assert_eq!(session.take_stats().packets_sent, 0);
}

#[test]
fn one_rtcp_datagram_cannot_pull_the_ring_out_repeatedly() {
    let mut session = busy_sender(3000);
    let ring = RistSocketConfig::default().retransmit_buffer_capacity;
    assert_eq!(ring, 2048, "fixture assumes the default ring size");
    let nack = app_range_nack(
        SSRC,
        &[
            (FIRST, 0xFFFF),
            (FIRST, 0xFFFF),
            (FIRST, 0xFFFF),
            (FIRST, 0xFFFF),
        ],
    );
    let sent = retransmitted(&mut session, &nack, local(6001)).len();
    assert!(
        sent > 0,
        "a well-formed NACK from the real peer must still be served"
    );
    assert!(
        sent <= ring,
        "one datagram forced {sent} retransmits; one ring is {ring}"
    );
    let stats = session.take_stats();
    assert_eq!(stats.packets_retransmitted, sent as u64);
    // Four lookups for each packet of the ring.
    assert_eq!(stats.nacks_received, 8192);
}

#[test]
fn nack_for_a_foreign_media_ssrc_is_not_served() {
    let mut session = busy_sender(3000);
    let foreign = SSRC ^ 0x0100_0000;
    let resident = FIRST.wrapping_add(2500);
    let nack = app_range_nack(foreign, &[(resident, 0x0FFF)]);
    assert!(retransmitted(&mut session, &nack, local(6001)).is_empty());
    let bitmask = RtcpCompound {
        packets: vec![RtcpPacket::Nack(NackPacket {
            sender_ssrc: 1,
            media_ssrc: foreign,
            entries: NackEntries::Range(vec![RangeNack {
                start: resident,
                extra: 3,
            }]),
        })],
    };
    assert!(retransmitted(&mut session, &bitmask.serialize(), local(6001)).is_empty());
    assert_eq!(session.take_stats().nacks_received, 0);
}

#[test]
fn a_live_rtcp_peer_is_not_displaced_by_another_source() {
    let mut session = busy_sender(3000);
    // The real peer speaks first, which makes its slot live.
    let resident = FIRST.wrapping_add(2500);
    let hello = app_range_nack(SSRC, &[(resident, 0)]);
    assert_eq!(
        retransmitted(&mut session, &hello, local(6001)).len(),
        1,
        "the real peer's one-packet NACK is served"
    );
    // Now a stranger on a different source IP sends a sweeping NACK with the
    // correct SSRC.
    let sweep = app_range_nack(SSRC, &[(resident, 0x0FFF)]);
    assert!(matches!(
        session.on_rtcp(&sweep, other(9999), start().after(ms(11_999))),
        RtcpReaction::NotOurPeer
    ));
    assert_eq!(session.rtcp_peer(), local(6001));
    // The peer may move to another port, and a stranger takes over once the
    // peer has been silent for the grace window.
    assert!(matches!(
        session.on_rtcp(&hello, local(7777), start()),
        RtcpReaction::Serve { .. }
    ));
    assert_eq!(session.rtcp_peer(), local(7777));
    assert!(matches!(
        session.on_rtcp(&sweep, other(9999), start().after(ms(12_000))),
        RtcpReaction::Serve { .. }
    ));
    assert_eq!(session.rtcp_peer(), other(9999));
}

#[test]
fn noise_does_not_move_the_peer() {
    let mut session = busy_sender(1);
    assert!(matches!(
        session.on_rtcp(&[0x00, 200, 0, 0], other(1), start()),
        RtcpReaction::Undecodable
    ));
    assert!(matches!(
        session.on_rtcp(&[0x80], other(1), start()),
        RtcpReaction::Empty
    ));
    assert_eq!(session.rtcp_peer(), local(6001));
}

#[test]
fn retransmits_carry_the_flag_and_the_payload() {
    let mut session = sender(&RistSocketConfig::default());
    let sent = session.on_media(b"payload", start());
    let nack = RtcpCompound {
        packets: vec![RtcpPacket::Nack(NackPacket {
            sender_ssrc: 1,
            media_ssrc: SSRC | 1,
            entries: NackEntries::Range(vec![RangeNack {
                start: FIRST,
                extra: 5,
            }]),
        })],
    };
    let again = retransmitted(&mut session, &nack.serialize(), local(6001));
    assert_eq!(again.len(), 1);
    let (was, size) = RtpHeader::parse(&sent).unwrap();
    let (is, _) = RtpHeader::parse(&again[0]).unwrap();
    assert!(!was.is_retransmit());
    assert!(is.is_retransmit());
    assert_eq!(
        is,
        RtpHeader {
            ssrc: was.ssrc | 1,
            ..was
        }
    );
    assert_eq!(&again[0][size..], b"payload");
    assert!(session.retransmit_packet(FIRST + 1).is_none());
    assert_eq!(session.take_stats().nacks_received, 6);
}

#[test]
fn last_ring_of_media_can_be_sent_again() {
    let config = RistSocketConfig {
        retransmit_buffer_capacity: 16,
        ..RistSocketConfig::default()
    };
    let mut session = sender(&config);
    for i in 0..1000u16 {
        session.on_media(&i.to_be_bytes(), start());
    }
    for i in 0..1000u16 {
        let again = session.retransmit_packet(FIRST.wrapping_add(i));
        if i < 1000 - 16 {
            assert!(again.is_none(), "packet {i}");
        } else {
            assert_eq!(&again.unwrap()[12..], i.to_be_bytes());
        }
    }
}

#[test]
fn oversized_request_gets_the_first_held_packets() {
    // The ring holds packets 952 to 2999, as many as one datagram may ask for.
    let mut session = busy_sender(3000);
    let at = |i: u16| FIRST.wrapping_add(i);
    let numbers = |packets: Vec<Bytes>| -> Vec<u16> {
        packets
            .iter()
            .map(|p| RtpHeader::parse(p).unwrap().0.sequence_number)
            .collect()
    };
    let nack = app_range_nack(SSRC, &[(at(2000), 999), (FIRST, 0xFFFF), (at(952), 9)]);
    let again = numbers(retransmitted(&mut session, &nack, local(6001)));
    let expected: Vec<u16> = (2000..3000).chain(952..2000).map(at).collect();
    assert_eq!(again, expected);
    // Requests that miss use the lookups up: the last of them finds a packet.
    let nack = app_range_nack(SSRC, &[(at(3000), 8190), (at(2000), 9)]);
    let again = numbers(retransmitted(&mut session, &nack, local(6001)));
    assert_eq!(again, [at(2000)]);
    let nack = app_range_nack(SSRC, &[(at(3000), 8191), (at(2000), 9)]);
    assert!(retransmitted(&mut session, &nack, local(6001)).is_empty());
}

#[test]
fn spent_budget_ends_the_datagram() {
    let mut session = busy_sender(600);
    let mut datagram = app_range_nack(SSRC, &[(FIRST, 0xFFFF)]);
    let echo = RistApp::RttEchoRequest(RttEchoRequest {
        ssrc: 5,
        timestamp_msw: 6,
        timestamp_lsw: 7,
    });
    // Before the NACK the request is answered, behind it no more.
    let mut first = echo.serialize().to_vec();
    first.extend_from_slice(&datagram);
    datagram.extend_from_slice(&echo.serialize());
    let count = |r: RtcpReaction| match r {
        RtcpReaction::Serve { actions } => actions
            .iter()
            .filter(|a| matches!(a, SenderAction::EchoReply { .. }))
            .count(),
        _ => panic!("expected service"),
    };
    assert_eq!(count(session.on_rtcp(&first, local(6001), start())), 1);
    assert_eq!(count(session.on_rtcp(&datagram, local(6001), start())), 0);
}

#[test]
fn echo_request_is_answered_with_the_processing_delay() {
    let session = sender(&RistSocketConfig::default());
    let request = RttEchoRequest {
        ssrc: 5,
        timestamp_msw: 6,
        timestamp_lsw: 7,
    };
    let reply = session.echo_reply(request, start(), start().after(Duration::from_micros(1234)));
    let parsed = RtcpCompound::parse(&reply).unwrap();
    assert_eq!(parsed.packets.len(), 2);
    match &parsed.packets[0] {
        RtcpPacket::ReceiverReport(rr) => assert_eq!(*rr, ReceiverReport::empty(SSRC)),
        _ => panic!("expected a report first"),
    }
    match &parsed.packets[1] {
        RtcpPacket::App(RistApp::RttEchoResponse(resp)) => assert_eq!(
            *resp,
            RttEchoResponse {
                ssrc: 5,
                timestamp_msw: 6,
                timestamp_lsw: 7,
                processing_delay_us: 1234
            }
        ),
        _ => panic!("expected the response"),
    }
}

#[test]
fn sender_tick_reports_and_asks_for_an_echo() {
    let mut session = sender(&RistSocketConfig::default());
    session.on_media(&[0; 100], start());
    let wall = SystemTime::from_unix(Duration::from_secs(1_700_000_001));
    let datagram = session.on_tick_at(start().after(ms(1000)), wall);
    let parsed = RtcpCompound::parse(&datagram).unwrap();
    assert_eq!(parsed.packets.len(), 3);
    let ntp = 1_700_000_001u64 + 2_208_988_800;
    match &parsed.packets[0] {
        RtcpPacket::SenderReport(sr) => assert_eq!(
            *sr,
            SenderReport {
                ssrc: SSRC,
                ntp_msw: ntp as u32,
                ntp_lsw: 0,
                rtp_timestamp: (ntp * 90_000 % (1 << 32)) as u32,
                sender_packet_count: 1,
                sender_octet_count: 100,
            }
        ),
        _ => panic!("expected SR"),
    }
    match &parsed.packets[1] {
        RtcpPacket::Sdes(sdes) => assert_eq!(sdes.cname, "sender"),
        _ => panic!("expected SDES"),
    }
    assert!(matches!(
        parsed.packets[2],
        RtcpPacket::App(RistApp::RttEchoRequest(_))
    ));
    // The next request is due after ten intervals.
    let next = session.on_tick(start().after(ms(1999)));
    assert_eq!(RtcpCompound::parse(&next).unwrap().packets.len(), 2);
    let next = session.on_tick(start().after(ms(2000)));
    assert_eq!(RtcpCompound::parse(&next).unwrap().packets.len(), 3);
    session.on_echo_response(
        RttEchoResponse {
            ssrc: SSRC,
            timestamp_msw: 0,
            timestamp_lsw: 0,
            processing_delay_us: 5_000,
        },
        start().after(ms(2050)),
    );
    assert_eq!(session.take_stats().rtt_us, 45_000);
    assert_eq!(session.take_stats().rtt_us, 45_000);
}

#[test]
fn fresh_sessions_are_even_and_named() {
    let config = RistSocketConfig {
        cname: Some("studio".to_string()),
        rtt_echo_enabled: false,
        ..RistSocketConfig::default()
    };
    let mut session = SenderSession::start(&config, "local".to_string(), local(6000), start());
    assert_eq!(session.ssrc() % 2, 0);
    let datagram = session.on_tick(start());
    let parsed = RtcpCompound::parse(&datagram).unwrap();
    assert_eq!(parsed.packets.len(), 2);
    match &parsed.packets[1] {
        RtcpPacket::Sdes(sdes) => {
            assert_eq!(sdes.cname, "studio");
            assert_eq!(sdes.ssrc, session.ssrc());
        }
        _ => panic!("expected SDES"),
    }
    let other_session = SenderSession::start(&config, "l".to_string(), local(6000), start());
    assert_ne!(session.ssrc(), other_session.ssrc());
    let receiver = ReceiverSession::start(&config, "local".to_string());
    assert_eq!(receiver.ssrc() % 2, 0);
    assert!(receiver.rtcp_peer().is_none());
    assert_eq!(even_ssrc(0xFFFF_FFFF), 0xFFFF_FFFE);
    assert_eq!(low_seq(0x0001_0203), 0x0203);
}

// --- Receiver ---

fn receiver(config: &RistSocketConfig) -> ReceiverSession {
    ReceiverSession::new(config, 0x2222_2222, "receiver".to_string())
}

/// Takes in one datagram as a batch of its own; whether it was admitted.
fn take(
    session: &mut ReceiverSession,
    buffer: &mut ReorderBuffer,
    datagram: &[u8],
    from: SocketAddr,
    now: Instant,
) -> bool {
    let us = (now.duration_since(start()).nanos / 1000) as u64;
    match session.on_media(datagram, from, us, now) {
        None => false,
        Some(p) => {
            let batch = vec![p];
            let outcomes = insert_batch(buffer, &batch, now);
            session.on_inserted(&batch, &outcomes, now);
            true
        }
    }
}

#[test]
fn receiver_media_is_pinned_to_the_established_source() {
    let mut session = receiver(&RistSocketConfig::default());
    let mut buffer = ReorderBuffer::new(ms(20));
    for seq in 0u16..8 {
        assert!(take(
            &mut session,
            &mut buffer,
            &rtp_packet(SSRC, seq, &[7u8; 100]),
            local(5000),
            start()
        ));
    }
    assert_eq!(session.rtcp_peer(), Some(local(5001)));
    // A second host injects into the same flow.
    for seq in 30000u16..30016 {
        assert!(!take(
            &mut session,
            &mut buffer,
            &rtp_packet(SSRC, seq, &[9u8; 100]),
            other(4000),
            start()
        ));
    }
    assert_eq!(
        session.take_stats().packets_received,
        8,
        "injected media from a foreign source must never reach the reorder buffer"
    );
    // The peer may use another port; its RTCP address stays.
    assert!(take(
        &mut session,
        &mut buffer,
        &rtp_packet(SSRC, 8, &[7u8; 100]),
        local(6002),
        start()
    ));
    assert_eq!(session.rtcp_peer(), Some(local(5001)));
    // After the grace window another host may take over.
    assert!(take(
        &mut session,
        &mut buffer,
        &rtp_packet(SSRC, 9, &[7u8; 100]),
        other(4000),
        start().after(ms(12_000))
    ));
    assert_eq!(session.rtcp_peer(), Some(other(4001)));
}

#[test]
fn configured_sender_is_the_only_one_heard() {
    let config = RistSocketConfig {
        remote_addr: Some(local(1)),
        ..RistSocketConfig::default()
    };
    let mut session = receiver(&config);
    let mut buffer = ReorderBuffer::new(ms(20));
    let packet = rtp_packet(SSRC, 1, &[1]);
    assert!(!take(&mut session, &mut buffer, &packet, other(5000), start()));
    let report = RtcpCompound {
        packets: vec![RtcpPacket::ReceiverReport(ReceiverReport::empty(1))],
    };
    assert!(matches!(
        session.on_rtcp(&report.serialize(), other(5001), start()),
        ReceiverReaction::NotOurPeer
    ));
    assert!(session.rtcp_peer().is_none());
    assert!(take(&mut session, &mut buffer, &packet, local(5000), start()));
}

#[test]
fn refused_source_may_have_any_port() {
    let mut session = receiver(&RistSocketConfig::default());
    let packet = rtp_packet(SSRC, 1, &[1]);
    assert!(session.on_media(&packet, local(5000), 0, start()).is_some());
    assert!(session.on_media(&packet, other(65_535), 0, start()).is_none());
    assert!(session.on_media(&packet, local(65_535), 0, start()).is_some());
    assert_eq!(session.rtcp_peer(), Some(local(5001)));
}

#[test]
fn new_source_without_an_rtcp_port_is_refused() {
    let mut session = receiver(&RistSocketConfig::default());
    let packet = rtp_packet(SSRC, 1, &[1]);
    assert!(session.on_media(&packet, local(65_535), 0, start()).is_none());
    assert!(session.rtcp_peer().is_none());
    assert!(session.on_media(&packet, local(65_534), 0, start()).is_some());
    assert_eq!(session.rtcp_peer(), Some(local(65_535)));
}

#[test]
fn payload_starts_after_the_extension_header() {
    let mut packet = vec![0x90, 33, 0, 9, 0, 0, 0, 7];
    packet.extend_from_slice(&SSRC.to_be_bytes());
    packet.extend_from_slice(&[0xBE, 0xDE, 0, 1, 1, 2, 3, 4]);
    let head = packet.len();
    packet.extend_from_slice(b"media");
    let p = parse_rtp(&packet, 3).unwrap();
    assert_eq!(p.seq, 9);
    assert_eq!(p.rtp_ts, 7);
    assert_eq!(p.payload.as_ref(), b"media");
    assert_eq!(p.payload_len, 5);
    // The extension is cut off.
    assert!(parse_rtp(&packet[..head - 1], 3).is_none());
    assert!(parse_rtp(&packet[..14], 3).is_none());
}

#[test]
fn refused_deliveries_are_counted_apart() {
    let mut counters = RistConnStats::new();
    assert_eq!(count_delivery(&mut counters, 2, &[true, false, true, false, false]), 3);
    assert_eq!(counters.packets_lost, 2);
    assert_eq!(counters.reorder_drops, 3);
    assert_eq!(count_delivery(&mut counters, 1, &[true]), 0);
    assert_eq!(counters.packets_lost, 3);
    assert_eq!(counters.reorder_drops, 3);
    assert_eq!(counters.packets_received, 0);
}

#[test]
fn malformed_media_is_dropped() {
    let mut session = receiver(&RistSocketConfig::default());
    let mut buffer = ReorderBuffer::new(ms(20));
    assert!(!take(&mut session, &mut buffer, &[0x80, 33], local(5000), start()));
    assert!(session.rtcp_peer().is_none());
    assert!(parse_rtp(&[0; 12], 0).is_none());
    let p = parse_rtp(&rtp_packet(SSRC | 1, 77, b"abc"), 55).unwrap();
    assert_eq!(p.seq, 77);
    assert_eq!(p.payload.as_ref(), b"abc");
    assert_eq!(p.payload_len, 3);
    assert_eq!(p.arrival_us, 55);
    assert!(p.is_retransmit);
    assert_eq!(p.media_ssrc, SSRC);
}

#[test]
fn counters_follow_the_buffer() {
    let mut session = receiver(&RistSocketConfig::default());
    let mut buffer = ReorderBuffer::with_capacity(ms(20), 64);
    let t0 = start();
    let from = local(5000);
    take(&mut session, &mut buffer, &rtp_packet(SSRC, 10, &[1; 10]), from, t0);
    take(&mut session, &mut buffer, &rtp_packet(SSRC, 12, &[3; 10]), from, t0);
    take(&mut session, &mut buffer, &rtp_packet(SSRC, 12, &[3; 10]), from, t0);
    take(&mut session, &mut buffer, &rtp_packet(SSRC | 1, 11, &[2; 10]), from, t0);
    take(&mut session, &mut buffer, &rtp_packet(SSRC, 9, &[0; 10]), from, t0);
    // Room for 75 pushes 10 and 11 out.
    take(&mut session, &mut buffer, &rtp_packet(SSRC, 75, &[9; 10]), from, t0);
    let stats = session.take_stats();
    assert_eq!(stats.packets_received, 6);
    assert_eq!(stats.bytes_received, 60);
    assert_eq!(stats.duplicates, 1);
    assert_eq!(stats.packets_recovered, 1);
    assert_eq!(stats.retransmits_received, 1);
    assert_eq!(stats.reorder_drops, 1);
    assert_eq!(stats.packets_lost, 2);
}

#[test]
fn delivery_side_waits_and_delivers() {
    let mut buffer = ReorderBuffer::new(ms(20));
    assert!(matches!(
        drain_step(&mut buffer, start()),
        DrainStep::Park
    ));
    buffer.insert(1, Bytes::from_static(b"a"), start());
    buffer.insert(3, Bytes::from_static(b"c"), start());
    match drain_step(&mut buffer, start()) {
        DrainStep::WaitUntil { deadline } => assert_eq!(deadline, start().after(ms(20))),
        other => panic!("expected a wait, got {other:?}"),
    }
    match drain_step(&mut buffer, start().after(ms(20))) {
        DrainStep::Deliver { packets, lost } => {
            assert_eq!(lost, 1);
            assert_eq!(packets.len(), 2);
            assert_eq!(packets[0].data.as_ref(), b"a");
            assert_eq!(packets[0].arrival, start());
            assert_eq!(packets[1].clone().data.as_ref(), b"c");
            assert_eq!(packets[1].rtp_seq, 3);
        }
        other => panic!("expected delivery, got {other:?}"),
    }
    assert!(matches!(
        drain_step(&mut buffer, start().after(ms(20))),
        DrainStep::Park
    ));
}

#[test]
fn nacks_name_the_observed_source() {
    let mut session = receiver(&RistSocketConfig::default());
    let mut buffer = ReorderBuffer::new(ms(500));
    let t0 = start();
    assert!(session.on_pump(t0).is_none());
    assert!(session.on_tick(t0).is_none());
    for seq in [5u16, 8] {
        take(
            &mut session,
            &mut buffer,
            &rtp_packet(SSRC, seq, &[1]),
            local(5000),
            t0,
        );
    }
    assert!(session.on_pump(t0.after(ms(49))).is_none());
    let request = session.on_pump(t0.after(ms(50))).unwrap();
    assert_eq!(request.count, 2);
    session.on_nacks_sent(request.count);
    assert_eq!(session.take_stats().nacks_sent, 2);
    let parsed = RtcpCompound::parse(&request.datagram).unwrap();
    match &parsed.packets[0] {
        RtcpPacket::ReceiverReport(rr) => {
            assert_eq!(rr.ssrc, 0x2222_2222);
            assert_eq!(rr.reports[0].extended_highest_seq, 8);
            assert_eq!(rr.reports[0].cumulative_lost, 2);
        }
        _ => panic!("expected a report first"),
    }
    match &parsed.packets[1] {
        RtcpPacket::Nack(nack) => {
            assert_eq!(nack.sender_ssrc, 0x2222_2222);
            assert_eq!(nack.media_ssrc, SSRC);
            match &nack.entries {
                NackEntries::Bitmask(v) => assert_eq!(v[0].lost_seqs(), vec![6, 7]),
                _ => panic!("expected a bitmask"),
            }
        }
        _ => panic!("expected the NACK"),
    }
    // Without an RTT the request is repeated after 20 ms.
    assert!(session.on_pump(t0.after(ms(69))).is_none());
    assert_eq!(session.on_pump(t0.after(ms(70))).unwrap().count, 2);
}

#[test]
fn known_rtt_sets_the_nack_delays() {
    let mut session = receiver(&RistSocketConfig::default());
    let mut buffer = ReorderBuffer::new(ms(500));
    let t0 = start();
    let from = local(5000);
    take(&mut session, &mut buffer, &rtp_packet(SSRC, 5, &[1]), from, t0);
    session.on_tick(t0).unwrap();
    let compound = RtcpCompound {
        packets: vec![RtcpPacket::App(RistApp::RttEchoResponse(RttEchoResponse {
            ssrc: 1,
            timestamp_msw: 0,
            timestamp_lsw: 0,
            processing_delay_us: 0,
        }))],
    };
    session.on_rtcp(&compound.serialize(), local(5001), t0.after(ms(60)));
    let t1 = t0.after(ms(60));
    take(&mut session, &mut buffer, &rtp_packet(SSRC, 7, &[1]), from, t1);
    // Half the RTT, then the RTT.
    assert!(session.on_pump(t1.after(ms(29))).is_none());
    assert_eq!(session.on_pump(t1.after(ms(30))).unwrap().count, 1);
    assert!(session.on_pump(t1.after(ms(89))).is_none());
    assert_eq!(session.on_pump(t1.after(ms(90))).unwrap().count, 1);
}

#[test]
fn receiver_takes_reports_and_echoes_in() {
    let mut session = receiver(&RistSocketConfig::default());
    let mut buffer = ReorderBuffer::new(ms(500));
    let t0 = start();
    take(
        &mut session,
        &mut buffer,
        &rtp_packet(SSRC, 5, &[1]),
        local(5000),
        t0,
    );
    let datagram = session.on_tick(t0).unwrap();
    assert_eq!(RtcpCompound::parse(&datagram).unwrap().packets.len(), 3);
    let compound = RtcpCompound {
        packets: vec![
            RtcpPacket::SenderReport(SenderReport {
                ssrc: SSRC,
                ntp_msw: 0x0000ABCD,
                ntp_lsw: 0xEF120000,
                rtp_timestamp: 0,
                sender_packet_count: 0,
                sender_octet_count: 0,
            }),
            RtcpPacket::App(RistApp::RttEchoRequest(RttEchoRequest {
                ssrc: 1,
                timestamp_msw: 2,
                timestamp_lsw: 3,
            })),
            RtcpPacket::App(RistApp::RttEchoResponse(RttEchoResponse {
                ssrc: 1,
                timestamp_msw: 0,
                timestamp_lsw: 0,
                processing_delay_us: 0,
            })),
        ],
    };
    let requests = match session.on_rtcp(&compound.serialize(), local(5001), t0.after(ms(100))) {
        ReceiverReaction::Serve { echo_requests } => echo_requests,
        other => panic!("expected service, got {other:?}"),
    };
    assert_eq!(
        requests,
        vec![RttEchoRequest {
            ssrc: 1,
            timestamp_msw: 2,
            timestamp_lsw: 3
        }]
    );
    let reply = session.echo_reply(requests[0], t0, t0.after(Duration::from_secs(5000)));
    match &RtcpCompound::parse(&reply).unwrap().packets[1] {
        RtcpPacket::App(RistApp::RttEchoResponse(resp)) => {
            assert_eq!(resp.processing_delay_us, u32::MAX);
        }
        _ => panic!("expected the response"),
    }
    assert_eq!(session.take_stats().rtt_us, 100_000);
    session.set_jitter(17, 189);
    assert_eq!(session.take_stats().jitter_us, 189);
    let report = session.on_tick(t0.after(ms(600))).unwrap();
    match &RtcpCompound::parse(&report).unwrap().packets[0] {
        RtcpPacket::ReceiverReport(rr) => {
            assert_eq!(rr.reports[0].ssrc, SSRC);
            assert_eq!(rr.reports[0].last_sr, 0xABCDEF12);
            assert_eq!(rr.reports[0].delay_since_last_sr, 32_768);
            assert_eq!(rr.reports[0].jitter, 17);
        }
        _ => panic!("expected a report"),
    }
    // Half the RTT is the delay of new NACKs, the RTT that of repeats.
    take(
        &mut session,
        &mut buffer,
        &rtp_packet(SSRC, 7, &[1]),
        local(5000),
        t0.after(ms(600)),
    );
    assert!(session.on_pump(t0.after(ms(649))).is_none());
    assert!(session.on_pump(t0.after(ms(650))).is_some());
    assert!(session.on_pump(t0.after(ms(749))).is_none());
    assert!(session.on_pump(t0.after(ms(750))).is_some());
}

#[test]
fn receiver_ignores_what_is_no_rtcp() {
    let mut session = receiver(&RistSocketConfig::default());
    assert!(matches!(
        session.on_rtcp(&[0x00, 1, 0, 0], local(1), start()),
        ReceiverReaction::Undecodable
    ));
    assert!(matches!(
        session.on_rtcp(&[], local(1), start()),
        ReceiverReaction::Empty
    ));
    assert!(session.rtcp_peer().is_none());
    let report = RtcpCompound {
        packets: vec![RtcpPacket::ReceiverReport(ReceiverReport::empty(1))],
    };
    assert!(matches!(
        session.on_rtcp(&report.serialize(), local(5001), start()),
        ReceiverReaction::Serve { .. }
    ));
    assert_eq!(session.rtcp_peer(), Some(local(5001)));
}

// --- Both ends ---

#[test]
fn nack_recovers_lossy_media_in_order() {
    let config = RistSocketConfig::default();
    let mut tx = sender(&config);
    let mut rx = receiver(&config);
    let mut buffer = ReorderBuffer::new(ms(800));
    let mut state: u64 = 0x9E3779B97F4A7C15;
    let mut next = || {
        state ^= state << 13;
        state ^= state >> 7;
        state ^= state << 17;
        state
    };
    const N: u32 = 800;
    let mut dropped = 0u64;
    let mut sent = 0u32;
    let mut got: Vec<u32> = Vec::new();
    let from = local(42110);

    for tick in 0..3500u64 {
        let now = start().after(ms(tick));
        let mut on_wire: Vec<Bytes> = Vec::new();
        if tick % 2 == 0 && sent < N {
            let mut payload = vec![0u8; 1316];
            payload[..4].copy_from_slice(&sent.to_be_bytes());
            on_wire.push(tx.on_media(&payload, now));
            sent += 1;
        }
        if tick % 10 == 0 {
            if let Some(request) = rx.on_pump(now) {
                rx.on_nacks_sent(request.count);
                if let RtcpReaction::Serve { actions } =
                    tx.on_rtcp(&request.datagram, local(42111), now)
                {
                    for action in actions {
                        if let SenderAction::Retransmit { seq } = action {
                            on_wire.push(tx.retransmit_packet(seq).unwrap());
                        }
                    }
                }
            }
        }
        // 5% of media is lost, retransmits included.
        for packet in on_wire {
            if next() % 1000 < 50 {
                dropped += 1;
            } else {
                assert!(take(&mut rx, &mut buffer, &packet, from, now));
            }
        }
        if let DrainStep::Deliver { packets, .. } = drain_step(&mut buffer, now) {
            for p in packets {
                got.push(u32::from_be_bytes([
                    p.data[0], p.data[1], p.data[2], p.data[3],
                ]));
            }
        }
    }

    let recovered = rx.take_stats().packets_recovered;
    assert!(
        dropped > 10,
        "relay should have dropped media, dropped={dropped}"
    );
    assert!(
        recovered > 0,
        "NACK retransmission must recover dropped packets, recovered={recovered}"
    );
    for w in got.windows(2) {
        assert!(
            w[0] < w[1],
            "delivery must be strictly increasing: {} then {}",
            w[0],
            w[1]
        );
    }
    assert!(
        got.len() as u32 >= N * 95 / 100,
        "expected >=95% delivered with recovery, got {}/{N}",
        got.len()
    );
}
