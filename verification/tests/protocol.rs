//! State machines: retransmission, reordering, bonding, RTT and RTCP state.

use bytes::Bytes;
use rist::packet::rtcp_sr::SenderReport;
use rist::protocol::bonding::BondingMerger;
use rist::protocol::nack_tracker::{NackScheduler, RetransmitBuffer};
use rist::protocol::reorder::{DrainItem, ReorderBuffer};
use rist::protocol::rtcp_state::{
    ntp_to_rtp90k, system_time_to_ntp, RtcpReceiverState, RtcpSenderState,
};
use rist::protocol::rtt::RttEstimator;
use rist::protocol::tunnel::TunnelConfig;
use rist::time::{Duration, Instant, SystemTime};
use rist::transport::bonding_task::ReceiverBonding;

fn ms(n: u64) -> Duration {
    Duration::from_millis(n)
}

/// An instant well after the clock's origin.
fn start() -> Instant {
    Instant::from_nanos(1_000_000_000_000)
}

// --- Retransmit buffer ---

#[test]
fn test_retransmit_buffer_o1() {
    let mut buf = RetransmitBuffer::new(8); // rounds up to 8
    assert_eq!(buf.capacity(), 8);

    for i in 0..8u16 {
        buf.insert(i, Bytes::from(vec![i as u8]));
    }
    assert_eq!(buf.get(0).unwrap().as_ref(), &[0]);
    assert_eq!(buf.get(7).unwrap().as_ref(), &[7]);

    // Overwrite slot 0 (seq 8 maps to same index)
    buf.insert(8, Bytes::from(vec![8]));
    assert!(buf.get(0).is_none()); // evicted
    assert_eq!(buf.get(8).unwrap().as_ref(), &[8]);
}

#[test]
fn test_retransmit_buffer_stale() {
    let mut buf = RetransmitBuffer::new(4);
    buf.insert(0, Bytes::from_static(b"a"));
    buf.insert(4, Bytes::from_static(b"b")); // overwrites slot 0
    assert!(buf.get(0).is_none());
    assert_eq!(buf.get(4).unwrap().as_ref(), b"b");
}

#[test]
fn test_retransmit_buffer_wraparound() {
    let mut buf = RetransmitBuffer::new(2048);
    // Insert around the u16 wraparound
    for seq in 65530..=65535u16 {
        buf.insert(seq, Bytes::from(vec![seq as u8]));
    }
    for seq in 0..5u16 {
        buf.insert(seq, Bytes::from(vec![seq as u8]));
    }
    // All should be retrievable
    assert!(buf.get(65535).is_some());
    assert!(buf.get(0).is_some());
    assert!(buf.get(4).is_some());
}

#[test]
fn retransmit_capacity_is_rounded_up() {
    assert_eq!(RetransmitBuffer::new(0).capacity(), 1);
    assert_eq!(RetransmitBuffer::new(1).capacity(), 1);
    assert_eq!(RetransmitBuffer::new(5).capacity(), 8);
    assert_eq!(RetransmitBuffer::new(2048).capacity(), 2048);
}

// --- NACK scheduler ---

#[test]
fn test_nack_scheduler_gap_detection() {
    let mut sched = NackScheduler::new(10, ms(50));
    let now = start();

    let gaps = sched.on_packet_received(0, now);
    assert!(gaps.is_empty());

    let gaps = sched.on_packet_received(3, now);
    assert_eq!(gaps, vec![1, 2]);
    assert_eq!(sched.pending_count(), 2);
}

#[test]
fn test_nack_scheduler_recovery() {
    let mut sched = NackScheduler::new(10, ms(50));
    let now = start();

    sched.on_packet_received(0, now);
    sched.on_packet_received(3, now);

    sched.on_packet_recovered(1);
    assert_eq!(sched.pending_count(), 1);
}

#[test]
fn test_nack_scheduler_timing() {
    let mut sched = NackScheduler::new(2, ms(50));
    let now = start();

    sched.on_packet_received(0, now);
    sched.on_packet_received(3, now);

    // Not yet time to NACK
    let nacks = sched.get_pending_nacks(now, None);
    assert!(nacks.is_empty());

    // After delay
    let later = now.after(ms(60));
    let nacks = sched.get_pending_nacks(later, None);
    assert_eq!(nacks, vec![1, 2]);

    // Second retry
    let much_later = later.after(ms(60));
    let nacks = sched.get_pending_nacks(much_later, None);
    assert_eq!(nacks, vec![1, 2]);

    // Exceeded max retries — given up
    let even_later = much_later.after(ms(60));
    let nacks = sched.get_pending_nacks(even_later, None);
    assert!(nacks.is_empty());
    assert_eq!(sched.pending_count(), 0);
}

#[test]
fn test_nack_scheduler_out_of_order() {
    let mut sched = NackScheduler::new(10, ms(50));
    let now = start();

    sched.on_packet_received(0, now);
    sched.on_packet_received(3, now);
    sched.on_packet_received(1, now); // out-of-order
    assert_eq!(sched.pending_count(), 1); // only 2 remains
}

#[test]
fn nacks_come_sorted_and_are_repeated_after_the_rtt() {
    let mut sched = NackScheduler::new(10, ms(20));
    let t0 = start();
    sched.on_packet_received(4094, t0);
    // 4095 and 4096 stand at opposite ends of the ring.
    assert_eq!(sched.on_packet_received(4098, t0), vec![4095, 4096, 4097]);
    let t1 = t0.after(ms(20));
    assert_eq!(
        sched.get_pending_nacks(t1, Some(ms(200))),
        vec![4095, 4096, 4097]
    );
    assert!(sched
        .get_pending_nacks(t1.after(ms(199)), Some(ms(200)))
        .is_empty());
    assert_eq!(
        sched.get_pending_nacks(t1.after(ms(200)), Some(ms(200))),
        vec![4095, 4096, 4097]
    );
}

#[test]
fn long_jump_is_a_discontinuity() {
    let mut sched = NackScheduler::new(10, ms(20));
    let t0 = start();
    sched.on_packet_received(0, t0);
    let gaps = sched.on_packet_received(1001, t0);
    assert_eq!(gaps.len(), 1000);
    assert_eq!(sched.pending_count(), 1000);
    // One more than can be asked for: the stream goes on from here.
    assert!(sched.on_packet_received(2003, t0).is_empty());
    assert_eq!(sched.pending_count(), 1000);
    assert_eq!(sched.on_packet_received(2005, t0), vec![2004]);
}

#[test]
fn base_delay_applies_to_new_gaps() {
    let mut sched = NackScheduler::new(10, ms(20));
    let t0 = start();
    sched.on_packet_received(0, t0);
    sched.update_base_delay(ms(100));
    sched.on_packet_received(2, t0);
    assert!(sched.get_pending_nacks(t0.after(ms(99)), None).is_empty());
    assert_eq!(sched.get_pending_nacks(t0.after(ms(100)), None), vec![1]);
}

#[test]
fn newer_gap_takes_the_slot_of_an_older_one() {
    let mut sched = NackScheduler::new(10, ms(20));
    let t0 = start();
    sched.on_packet_received(0, t0);
    sched.on_packet_received(2, t0); // 1 is missing
    for seq in 3..4097u16 {
        sched.on_packet_received(seq, t0);
    }
    assert_eq!(sched.on_packet_received(4098, t0), vec![4097]); // shares the slot of 1
    assert_eq!(sched.pending_count(), 1);
    assert_eq!(sched.get_pending_nacks(t0.after(ms(20)), None), vec![4097]);
}

// --- Reorder buffer ---

fn b(n: u8) -> Bytes {
    Bytes::from(vec![n])
}

fn collect(buf: &mut ReorderBuffer, now: Instant) -> Vec<DrainItem> {
    let mut v = Vec::new();
    buf.drain_ready(now, &mut v);
    v
}

fn assert_delivered(items: &[DrainItem], expected: &[u8]) {
    let got: Vec<u8> = items
        .iter()
        .filter_map(|i| match i {
            DrainItem::Delivered { data, .. } => Some(data[0]),
            DrainItem::Lost => None,
        })
        .collect();
    assert_eq!(&got, expected);
}

#[test]
fn in_order_delivery_after_hold() {
    let mut buf = ReorderBuffer::new(ms(50));
    let t0 = start();
    buf.insert(10, b(1), t0);
    buf.insert(11, b(2), t0);

    assert!(collect(&mut buf, t0).is_empty());

    let items = collect(&mut buf, t0.after(ms(50)));
    assert_delivered(&items, &[1, 2]);
}

#[test]
fn gap_filled_by_retransmit_before_timeout() {
    let mut buf = ReorderBuffer::new(ms(100));
    let t0 = start();
    buf.insert(10, b(1), t0);
    buf.insert(12, b(3), t0); // seq 11 is a gap

    // Nothing ready yet — seq 11 still has time
    assert!(collect(&mut buf, t0.after(ms(40))).is_empty());

    // Retransmit arrives
    let outcome = buf.insert(11, b(2), t0.after(ms(60)));
    assert!(outcome.recovered);

    // After hold time elapses, deliver in order
    let items = collect(&mut buf, t0.after(ms(200)));
    assert_delivered(&items, &[1, 2, 3]);
}

#[test]
fn gap_times_out_when_retransmit_never_arrives() {
    let mut buf = ReorderBuffer::new(ms(80));
    let t0 = start();
    buf.insert(10, b(1), t0);
    buf.insert(12, b(3), t0);

    let items = collect(&mut buf, t0.after(ms(200)));
    let mut iter = items.iter();
    match iter.next() {
        Some(DrainItem::Delivered { data, .. }) if data[0] == 1 => {}
        _ => panic!("expected delivery of seq 10"),
    }
    match iter.next() {
        Some(DrainItem::Lost) => {}
        _ => panic!("expected lost marker for seq 11"),
    }
    match iter.next() {
        Some(DrainItem::Delivered { data, .. }) if data[0] == 3 => {}
        _ => panic!("expected delivery of seq 12"),
    }
}

#[test]
fn duplicate_arrivals_are_ignored() {
    let mut buf = ReorderBuffer::new(ms(10));
    let t0 = start();
    buf.insert(10, b(1), t0);
    let dup = buf.insert(10, b(99), t0);
    assert!(dup.duplicate);

    let items = collect(&mut buf, t0.after(ms(20)));
    assert_delivered(&items, &[1]);
}

#[test]
fn stale_arrivals_are_rejected() {
    let mut buf = ReorderBuffer::new(ms(20));
    let t0 = start();
    buf.insert(10, b(1), t0);
    buf.insert(11, b(2), t0);
    let drained = collect(&mut buf, t0.after(ms(30)));
    assert_delivered(&drained, &[1, 2]);

    let late = buf.insert(10, b(9), t0.after(ms(40)));
    assert!(late.stale);
}

#[test]
fn sequence_wraparound() {
    let mut buf = ReorderBuffer::new(ms(5));
    let t0 = start();
    buf.insert(65534, b(1), t0);
    buf.insert(65535, b(2), t0);
    buf.insert(0, b(3), t0);
    buf.insert(1, b(4), t0);

    let items = collect(&mut buf, t0.after(ms(10)));
    assert_delivered(&items, &[1, 2, 3, 4]);
}

#[test]
fn next_drain_time_is_monotonic_with_arrivals() {
    let mut buf = ReorderBuffer::new(ms(100));
    assert!(buf.next_drain_time().is_none());
    let t0 = start();
    buf.insert(10, b(1), t0);
    assert_eq!(buf.next_drain_time(), Some(t0.after(ms(100))));
}

#[test]
fn delivered_packets_carry_their_number_and_arrival() {
    let mut buf = ReorderBuffer::new(ms(10));
    let t0 = start();
    buf.insert(700, b(1), t0);
    buf.insert(702, b(3), t0.after(ms(1)));
    buf.insert(701, b(2), t0.after(ms(2)));
    let items = collect(&mut buf, t0.after(ms(50)));
    let seen: Vec<(u16, Instant)> = items
        .iter()
        .filter_map(|i| match i {
            DrainItem::Delivered { seq, arrival, .. } => Some((*seq, *arrival)),
            DrainItem::Lost => None,
        })
        .collect();
    assert_eq!(
        seen,
        vec![
            (700, t0),
            (701, t0.after(ms(2))),
            (702, t0.after(ms(1)))
        ]
    );
    assert!(buf.next_drain_time().is_none());
}

#[test]
fn packet_beyond_the_ring_pushes_the_oldest_out() {
    let mut buf = ReorderBuffer::with_capacity(ms(1000), 10);
    assert_eq!(buf.capacity(), 64);
    assert_eq!(buf.buffer_time(), ms(1000));
    let t0 = start();
    buf.insert(0, b(0), t0);
    let far = buf.insert(70, b(70), t0);
    // Nothing of the window can stay: the buffer starts over at 70.
    assert_eq!(far.overflow_flushed, 1);
    assert_eq!(far.new_gaps, 0);
    let next = buf.insert(75, b(75), t0);
    assert_eq!(next.overflow_flushed, 0);
    assert_eq!(next.new_gaps, 4);
    let mut full = ReorderBuffer::with_capacity(ms(1000), 64);
    for seq in 0..64u16 {
        full.insert(seq, b(seq as u8), t0);
    }
    let over = full.insert(66, b(66), t0);
    assert_eq!(over.overflow_flushed, 3);
    assert_eq!(over.new_gaps, 2);
    assert!(full.insert(2, b(2), t0).stale);
    assert!(full.insert(3, b(3), t0).duplicate);
}

#[test]
fn overflow_flushes_oldest_not_freshest() {
    let mut buf = ReorderBuffer::with_capacity(ms(100), 64);
    let t0 = start();
    // 1 is missing, so the head is stuck when the ring fills up.
    buf.insert(0, b(0), t0);
    for seq in 2..64u16 {
        buf.insert(seq, b(seq as u8), t0);
    }
    let fresh = buf.insert(65, b(65), t0);
    assert!(!fresh.stale);
    assert_eq!(fresh.overflow_flushed, 2);
    assert_eq!(fresh.new_gaps, 1);
    let items = collect(&mut buf, t0.after(ms(100)));
    assert_eq!(items.len(), 64);
    let expected: Vec<u8> = (2..64).chain(65..66).collect();
    assert_delivered(&items, &expected);
}

#[test]
fn overflow_huge_jump_resets() {
    let mut buf = ReorderBuffer::with_capacity(ms(100), 64);
    let t0 = start();
    for seq in 0..10u16 {
        buf.insert(seq, b(seq as u8), t0);
    }
    // 74 is 65 places after 9, one more than the ring has.
    let far = buf.insert(74, b(74), t0);
    assert_eq!(far.overflow_flushed, 10);
    assert_eq!(far.new_gaps, 0);
    assert!(buf.insert(73, b(73), t0).stale);
    assert_delivered(&collect(&mut buf, t0.after(ms(100))), &[74]);
}

#[test]
fn overflow_by_one_ring_waits_for_what_lies_between() {
    let mut buf = ReorderBuffer::with_capacity(ms(100), 64);
    let t0 = start();
    for seq in 0..10u16 {
        buf.insert(seq, b(seq as u8), t0);
    }
    let far = buf.insert(73, b(73), t0);
    assert_eq!(far.overflow_flushed, 10);
    assert_eq!(far.new_gaps, 63);
    assert!(buf.insert(10, b(10), t0).recovered);
    assert_delivered(&collect(&mut buf, t0.after(ms(100))), &[10, 73]);
}

#[test]
fn delivery_is_in_order_over_a_run_of_arrivals_and_drains() {
    let mut buf = ReorderBuffer::with_capacity(ms(10), 64);
    let t0 = start();
    let mut got: Vec<u16> = Vec::new();
    // Pairs arrive swapped, each fifth packet is lost and each seventh comes
    // twice, across the wrap of the sequence numbers.
    for i in 0..400u16 {
        let seq = 65_300u16.wrapping_add(i ^ 1);
        let now = t0.after(ms(i as u64));
        if i % 5 != 0 {
            buf.insert(seq, b(seq as u8), now);
        }
        if i % 7 == 0 && i % 5 != 0 {
            let again = buf.insert(seq, b(0xFF), now);
            assert!(again.duplicate || again.stale);
        }
        for item in collect(&mut buf, now) {
            if let DrainItem::Delivered { data, seq, .. } = item {
                assert_eq!(data[0], seq as u8);
                got.push(seq);
            }
        }
    }
    assert!(got.len() > 300);
    for pair in got.windows(2) {
        let step = pair[1].wrapping_sub(pair[0]);
        assert!(step >= 1 && step <= 3, "{} then {}", pair[0], pair[1]);
    }
}

// --- Bonding ---

#[test]
fn test_first_packet() {
    let mut merger = BondingMerger::new();
    assert!(merger.process(0, Bytes::from_static(b"a")).is_some());
    assert_eq!(merger.packets_emitted, 1);
}

#[test]
fn test_duplicate_dropped() {
    let mut merger = BondingMerger::new();
    merger.process(0, Bytes::from_static(b"a"));
    assert!(merger.process(0, Bytes::from_static(b"a")).is_none());
    assert_eq!(merger.duplicates_dropped, 1);
}

#[test]
fn test_in_order() {
    let mut merger = BondingMerger::new();
    for i in 0..100u16 {
        assert!(merger.process(i, Bytes::from(vec![i as u8])).is_some());
    }
    assert_eq!(merger.packets_emitted, 100);
    assert_eq!(merger.duplicates_dropped, 0);
}

#[test]
fn test_bonding_dedup() {
    let mut merger = BondingMerger::new();
    // Simulate two paths sending the same packets
    for i in 0..50u16 {
        assert!(merger.process(i, Bytes::from(vec![i as u8])).is_some());
        assert!(merger.process(i, Bytes::from(vec![i as u8])).is_none());
    }
    assert_eq!(merger.packets_emitted, 50);
    assert_eq!(merger.duplicates_dropped, 50);
}

#[test]
fn test_gap_fill() {
    let mut merger = BondingMerger::new();
    merger.process(0, Bytes::from_static(b"0"));
    merger.process(2, Bytes::from_static(b"2")); // skip 1
    // Now 1 arrives from the other path
    assert!(merger.process(1, Bytes::from_static(b"1")).is_some());
    assert_eq!(merger.packets_emitted, 3);
}

#[test]
fn test_late_packet_dropped() {
    let mut merger = BondingMerger::new();
    merger.process(0, Bytes::from_static(b"0"));
    // Advance far ahead
    merger.process(2000, Bytes::from_static(b"2000"));
    // Original packet is too late
    assert!(merger.process(0, Bytes::from_static(b"0")).is_none());
    assert_eq!(merger.late_dropped, 1);
}

#[test]
fn bonding_test_wraparound() {
    let mut merger = BondingMerger::new();
    merger.process(65534, Bytes::from_static(b"a"));
    merger.process(65535, Bytes::from_static(b"b"));
    assert!(merger.process(0, Bytes::from_static(b"c")).is_some());
    assert!(merger.process(1, Bytes::from_static(b"d")).is_some());
    assert_eq!(merger.packets_emitted, 4);
}

#[test]
fn no_packet_is_emitted_twice_over_two_paths() {
    let mut merger = BondingMerger::new();
    let mut count = vec![0u32; 3000];
    // The second path lags by 40 packets; each path loses some.
    for i in 0..3040usize {
        if i < 3000 && i % 9 != 0 {
            if merger.process(i as u16, Bytes::new()).is_some() {
                count[i] += 1;
            }
        }
        if i >= 40 && (i - 40) % 11 != 0 {
            if merger.process((i - 40) as u16, Bytes::new()).is_some() {
                count[i - 40] += 1;
            }
        }
    }
    for (i, n) in count.iter().enumerate() {
        let lost = i % 9 == 0 && i % 11 == 0;
        // The first packet on either path starts the window.
        assert_eq!(*n, if lost { 0 } else { 1 }, "packet {i}");
    }
}

#[test]
fn merger_window_is_1024_packets() {
    let mut merger = BondingMerger::default();
    merger.process(0, b(0));
    assert_eq!(merger.process(1023, b(9)).unwrap().as_ref(), &[9]);
    assert!(merger.process(0, b(0)).is_none());
    assert_eq!(merger.duplicates_dropped, 1);
    assert!(merger.process(1024, b(0)).is_some());
    assert!(merger.process(0, b(0)).is_none());
    assert_eq!(merger.late_dropped, 1);
    // 1025 takes the bit of 1, which is still open.
    assert!(merger.process(1, b(1)).is_some());
    assert!(merger.process(1025, b(1)).is_some());
    assert!(merger.process(1025, b(1)).is_none());
    assert!(merger.process(2, b(1)).is_some());
    // Half the sequence space away is behind.
    assert!(merger.process(1025 + 32768, b(1)).is_none());
    assert_eq!(ReceiverBonding::new().merger.packets_emitted, 0);
}

// --- RTT ---

#[test]
fn test_rtt_first_measurement() {
    let mut est = RttEstimator::new(Duration::from_secs(1));
    est.update_rtt(ms(50));
    assert_eq!(est.srtt(), Some(ms(50)));
}

#[test]
fn test_rtt_ewma() {
    let mut est = RttEstimator::new(Duration::from_secs(1));
    est.update_rtt(ms(100));
    est.update_rtt(ms(60));

    let srtt = est.srtt().unwrap();
    // Should be between 60 and 100, closer to 100 (7/8 weight on old)
    assert!(srtt > ms(60));
    assert!(srtt < ms(100));
    // 87.5 ms + 7.5 ms
    assert_eq!(srtt, ms(95));
}

#[test]
fn test_nack_delay() {
    let mut est = RttEstimator::new(Duration::from_secs(1));
    assert!(est.nack_delay().is_none());

    est.update_rtt(ms(80));
    assert_eq!(est.nack_delay(), Some(ms(40)));
}

#[test]
fn rtt_request_and_response() {
    let mut est = RttEstimator::new(Duration::from_secs(1));
    let t0 = start();
    est.on_response(t0, 0, 0, 0);
    assert!(est.srtt().is_none());
    assert!(est.should_send_request(t0));
    assert_eq!(est.generate_request(t0), (0, 0));
    assert!(!est.should_send_request(t0.after(ms(999))));
    assert!(est.should_send_request(t0.after(ms(1000))));
    est.on_response(t0.after(ms(30)), 0, 0, 10_000);
    assert_eq!(est.srtt(), Some(ms(20)));
    // The timestamp counts microseconds from the first request.
    let hour = Duration::from_secs(2 * 3600);
    assert_eq!(est.generate_request(t0.after(hour)), (1, 2_905_032_704));
    assert_eq!(est.next_request_at, Some(t0.after(hour).after(ms(1000))));
}

// --- RTCP state ---

#[test]
fn test_sender_state_sr_generation() {
    let now = start();
    let mut state = RtcpSenderState::new(
        0x1234,
        "test".to_string(),
        ms(100),
        now,
        SystemTime::now(),
    );

    state.on_packet_sent(1316, 90000, now);
    state.on_packet_sent(1316, 90000 + 3600, now);

    assert_eq!(state.packet_count, 2);
    assert_eq!(state.octet_count, 2632);

    let sr = state.generate_sr(now);
    assert_eq!(sr.ssrc, 0x1234);
    assert_eq!(sr.sender_packet_count, 2);
    assert_eq!(sr.sender_octet_count, 2632);

    // NTP timestamp should reflect wall-clock time (year 2020+),
    // not elapsed-since-start (~0 seconds + NTP offset = ~1970)
    // NTP seconds for 2020-01-01 ≈ 3_786_825_600
    assert!(
        sr.ntp_msw > 3_786_825_600,
        "NTP MSW {} should be > 3_786_825_600 (year 2020+)",
        sr.ntp_msw
    );
}

#[test]
fn test_system_time_to_ntp() {
    let (msw, lsw) = system_time_to_ntp(SystemTime::now());
    // NTP seconds for 2020-01-01 ≈ 3_786_825_600
    assert!(
        msw > 3_786_825_600,
        "NTP MSW should reflect current wall-clock time"
    );
    // Fractional part should be non-trivial (very unlikely to be exactly 0)
    let _ = lsw; // Just ensure it doesn't panic
}

#[test]
fn test_receiver_state_basic() {
    let mut state = RtcpReceiverState::new(0x5678, "receiver".to_string(), ms(100));

    // Receive packets in order
    for i in 0..100u16 {
        state.on_packet_received(i, i as u32 * 3600, i as u64 * 40_000);
    }

    assert_eq!(state.packets_received, 100);
    assert_eq!(state.max_seq(), 99);

    let rr = state.generate_rr(start());
    assert_eq!(rr.reports.len(), 1);
    assert_eq!(rr.reports[0].extended_highest_seq, 99);
}

#[test]
fn test_receiver_state_with_loss() {
    let mut state = RtcpReceiverState::new(0x5678, "receiver".to_string(), ms(100));

    // Receive packets with a gap (skip seq 5)
    for i in 0..10u16 {
        if i != 5 {
            state.on_packet_received(i, i as u32 * 3600, i as u64 * 40_000);
        }
    }

    assert_eq!(state.packets_received, 9);
    let rr = state.generate_rr(start());
    assert!(rr.reports[0].cumulative_lost > 0);
}

#[test]
fn test_should_send_rtcp() {
    let state = RtcpSenderState::new(
        0x1234,
        "test".to_string(),
        ms(100),
        start(),
        SystemTime::now(),
    );
    assert!(state.should_send_rtcp(start()));
}

#[test]
fn ntp_and_rtp_clocks() {
    // Half a second into the Unix epoch.
    let time = SystemTime::from_unix(ms(500));
    assert_eq!(system_time_to_ntp(time), (2_208_988_800, 0x8000_0000));
    // 2208988800.5 s at 90 kHz, modulo 2^32, then one second on.
    let t0 = start();
    let at_epoch = ((2_208_988_800u64 * 90_000 + 45_000) % (1 << 32)) as u32;
    assert_eq!(ntp_to_rtp90k(time, t0, t0), at_epoch);
    assert_eq!(
        ntp_to_rtp90k(time, t0, t0.after(ms(1000))),
        at_epoch.wrapping_add(90_000)
    );
}

#[test]
fn sender_report_and_media_share_a_clock() {
    let t0 = start();
    let epoch = SystemTime::from_unix(Duration::from_secs(1_600_000_000));
    let mut state = RtcpSenderState::new(1, "c".to_string(), ms(100), t0, epoch);
    let now = t0.after(ms(1234));
    let sr = state.generate_sr_at(now, SystemTime::from_unix(Duration::from_secs(1_600_000_001)));
    assert_eq!(sr.rtp_timestamp, ntp_to_rtp90k(epoch, t0, now));
    assert_eq!(sr.ntp_msw, (1_600_000_001u64 + 2_208_988_800) as u32);
    assert!(!state.should_send_rtcp(now.after(ms(99))));
    assert!(state.should_send_rtcp(now.after(ms(100))));
    assert_eq!(state.generate_sdes().cname, "c");
}

#[test]
fn receiver_report_counts_losses() {
    let mut state = RtcpReceiverState::new(0x5678, "receiver".to_string(), ms(100));
    let t0 = start();
    assert!(!state.should_send_rtcp(t0));
    assert!(state.generate_rr(t0).reports.is_empty());
    // 65530 to 5 with every other packet lost: 6 of 12 arrive, the last is missing.
    for i in 0..6u16 {
        state.on_packet_received(65530u16.wrapping_add(i * 2), 0, 0);
    }
    assert_eq!(state.extended_max_seq(), 65536 + 4);
    let rr = state.generate_rr(t0);
    let block = &rr.reports[0];
    assert_eq!(block.extended_highest_seq, 65536 + 4);
    // Expected 11, received 6.
    assert_eq!(block.cumulative_lost, 5);
    assert_eq!(block.fraction_lost, (5 * 256 / 11) as u8);
    // Nothing since.
    assert_eq!(state.generate_rr(t0).reports[0].fraction_lost, 0);
    // A jump with nothing but duplicates behind it: all lost.
    state.on_packet(10, 0, 0, true);
    let rr = state.generate_rr(t0);
    assert_eq!(rr.reports[0].fraction_lost, 255);
    assert_eq!(state.packets_received, 6);
    assert!(!state.should_send_rtcp(t0.after(ms(99))));
    assert_eq!(state.generate_sdes().ssrc, 0x5678);
}

#[test]
fn receiver_report_echoes_the_sender_report() {
    let mut state = RtcpReceiverState::new(1, "r".to_string(), ms(100));
    let t0 = start();
    state.on_packet_received(7, 0, 0);
    state.set_jitter(42);
    state.on_sr_received(
        &SenderReport {
            ssrc: 99,
            ntp_msw: 0x0000ABCD,
            ntp_lsw: 0xEF120000,
            rtp_timestamp: 0,
            sender_packet_count: 0,
            sender_octet_count: 0,
        },
        t0,
    );
    let block = state.generate_rr(t0.after(ms(1500))).reports[0];
    assert_eq!(block.ssrc, 99);
    assert_eq!(block.last_sr, 0xABCDEF12);
    assert_eq!(block.delay_since_last_sr, 65_536 + 32_768);
    assert_eq!(block.jitter, 42);
    let late = state.generate_rr(t0.after(Duration::from_secs(70_000)));
    assert_eq!(late.reports[0].delay_since_last_sr, u32::MAX);
}

#[test]
fn duplicates_do_not_inflate_received_or_jitter() {
    let mut state = RtcpReceiverState::new(1, "r".to_string(), ms(100));
    for i in 0..10u16 {
        state.on_packet(i, i as u32 * 900, i as u64 * 10_000 + 100, false);
        assert_eq!(
            state.on_packet(i, i as u32 * 900, i as u64 * 10_000 + 5_000, true),
            None
        );
    }
    assert_eq!(state.packets_received, 10);
    let rr = state.generate_rr(start());
    assert_eq!(rr.reports[0].cumulative_lost, 0);
    assert_eq!(rr.reports[0].fraction_lost, 0);
    assert_eq!(state.on_packet(10, 9000, 100_100, false), Some(0));
}

#[test]
fn jitter_samples_are_transit_differences() {
    let mut state = RtcpReceiverState::new(1, "r".to_string(), ms(100));
    // Transit 900 - 100 = 800 ticks.
    assert_eq!(state.on_packet_received(0, 100, 10_000), None);
    // Transit 1800 - 1500 = 300 ticks.
    assert_eq!(state.on_packet_received(1, 1500, 20_000), Some(500));
    // A duplicate is not timed.
    assert_eq!(state.on_packet(1, 1500, 30_000, true), None);
    assert_eq!(state.on_packet_received(2, 2000, 30_000), Some(400));
}

#[test]
fn jitter_is_sampled_after_a_transit_of_zero() {
    let mut state = RtcpReceiverState::new(1, "r".to_string(), ms(100));
    assert_eq!(state.on_packet_received(0, 900, 10_000), None);
    assert_eq!(state.on_packet_received(1, 1700, 20_000), Some(100));
    assert_eq!(state.on_packet_received(2, 2700, 30_000), Some(100));
    assert_eq!(state.on_packet_received(3, 3600, 40_000), Some(0));
}

#[test]
fn jitter_samples_are_small_across_zero() {
    let mut state = RtcpReceiverState::new(1, "r".to_string(), ms(100));
    // Transit 5, then -5, then 5 ticks.
    assert_eq!(state.on_packet_received(0, 895, 10_000), None);
    assert_eq!(state.on_packet_received(1, 1805, 20_000), Some(10));
    assert_eq!(state.on_packet_received(2, 2695, 30_000), Some(10));
    // Half way round and beyond, the other way is the shorter one.
    assert_eq!(state.on_packet_received(3, 2695 + 0x8000_0000, 30_000), Some(0x8000_0000));
    assert_eq!(state.on_packet_received(4, 2694, 30_000), Some(0x7FFF_FFFF));
}

#[test]
fn arrival_clock_wraps_with_the_timestamps() {
    let mut state = RtcpReceiverState::new(1, "r".to_string(), ms(100));
    // 13.25 hours: 2^32 ticks of the 90 kHz clock and some.
    let us: u64 = 47_721_900_000;
    let ticks: u32 = (us * 9 / 100 - 0x1_0000_0000) as u32;
    assert_eq!(state.on_packet_received(0, ticks - 700, us), None);
    assert_eq!(state.on_packet_received(1, ticks + 900 - 650, us + 10_000), Some(50));
    assert_eq!(state.on_packet_received(2, ticks + 1800 - 650, us + 20_000), Some(0));
}

#[test]
fn lost_packet_is_asked_for_until_it_comes() {
    let mut scheduler = NackScheduler::new(3, ms(50));
    let t0 = start();
    scheduler.on_packet_received(10, t0);
    assert_eq!(scheduler.on_packet_received(13, t0), vec![11, 12]);
    assert_eq!(scheduler.get_pending_nacks(t0.after(ms(50)), Some(ms(20))), vec![11, 12]);
    scheduler.on_packet_received(11, t0.after(ms(60)));
    assert_eq!(scheduler.get_pending_nacks(t0.after(ms(70)), Some(ms(20))), vec![12]);
    assert_eq!(scheduler.get_pending_nacks(t0.after(ms(90)), Some(ms(20))), vec![12]);
    // Three requests are all it gets.
    assert!(scheduler.get_pending_nacks(t0.after(ms(110)), Some(ms(20))).is_empty());
    assert!(scheduler.get_pending_nacks(t0.after(ms(900)), Some(ms(20))).is_empty());
    assert_eq!(scheduler.pending_count(), 0);
}

#[test]
fn each_number_comes_out_once_with_its_first_copy() {
    let mut buffer = ReorderBuffer::new(ms(20));
    let t0 = start();
    buffer.insert(7, Bytes::from_static(b"seven"), t0);
    buffer.insert(9, Bytes::from_static(b"nine"), t0);
    buffer.insert(9, Bytes::from_static(b"again"), t0.after(ms(1)));
    let mut out: Vec<DrainItem> = Vec::new();
    buffer.drain_ready(t0.after(ms(20)), &mut out);
    // Too late for what has been given up.
    assert!(buffer.insert(8, Bytes::from_static(b"eight"), t0.after(ms(21))).stale);
    buffer.insert(10, Bytes::from_static(b"ten"), t0.after(ms(21)));
    buffer.drain_ready(t0.after(ms(41)), &mut out);
    let seen: Vec<Option<(u16, Vec<u8>)>> = out
        .iter()
        .map(|item| match item {
            DrainItem::Delivered { data, seq, .. } => Some((*seq, data.to_vec())),
            DrainItem::Lost => None,
        })
        .collect();
    assert_eq!(
        seen,
        vec![
            Some((7, b"seven".to_vec())),
            None,
            Some((9, b"nine".to_vec())),
            Some((10, b"ten".to_vec())),
        ]
    );
}

#[test]
fn tunnel_defaults() {
    let config = TunnelConfig::default();
    assert_eq!(config.keepalive_interval, Duration::from_secs(5));
    assert_eq!(config.tunnel_timeout, Duration::from_secs(60));
    assert_eq!(config.initial_keepalive_count, 5);
    assert!(config.reduced_overhead);
}
