//! Admission rules and work budgets of a session.

use rist::gre::header::RistVersion;
use rist::time::{Duration, Instant};
use rist::transport::channel::{rtcp_addr_for, rtcp_bind_addr, ChannelError};
use rist::transport::config::RistSocketConfig;
use rist::transport::guard::{
    nack_targets_us, peer_is_protected, peer_move_allowed, peer_takeover_grace, source_allowed,
    NackWorkBudget,
};
use rist::transport::net::{IpAddr, SocketAddr};
use rist::transport::stats::RistConnStats;

fn now() -> Instant {
    Instant::from_nanos(1_000_000_000_000)
}

/// The instant `span` before `now()`.
fn ago(span: Duration) -> Instant {
    Instant::from_nanos(now().nanos - span.nanos)
}

fn stranger() -> SocketAddr {
    SocketAddr::v4(203, 0, 113, 9, 5000)
}

fn peer() -> SocketAddr {
    SocketAddr::v4(198, 51, 100, 4, 5000)
}

#[test]
fn unlatched_slot_accepts_anyone() {
    assert!(source_allowed(stranger(), None, None, None, now()));
}

#[test]
fn live_slot_does_not_move_to_a_different_ip() {
    let live = Some(ago(Duration::from_secs(1)));
    assert!(!source_allowed(
        stranger(),
        None,
        Some(peer()),
        live,
        now()
    ));
    // ...but the peer itself keeps flowing.
    assert!(source_allowed(peer(), None, Some(peer()), live, now()));
}

#[test]
fn same_ip_port_change_is_always_allowed() {
    let live = Some(now());
    assert!(source_allowed(
        SocketAddr::v4(198, 51, 100, 4, 41234),
        None,
        Some(peer()),
        live,
        now()
    ));
}

#[test]
fn slot_releases_after_the_grace_window() {
    let stale = Some(Instant::from_nanos(
        now().nanos - peer_takeover_grace().nanos - Duration::from_millis(1).nanos,
    ));
    assert!(!peer_is_protected(stale, now()));
    assert!(source_allowed(
        stranger(),
        None,
        Some(peer()),
        stale,
        now()
    ));
}

#[test]
fn grace_window_is_twelve_seconds() {
    assert!(peer_is_protected(
        Some(ago(Duration::from_millis(11_999))),
        now()
    ));
    assert!(!peer_is_protected(
        Some(ago(Duration::from_millis(12_000))),
        now()
    ));
    assert!(!peer_move_allowed(
        stranger(),
        peer(),
        Some(ago(Duration::from_millis(11_999))),
        now()
    ));
}

#[test]
fn a_slot_that_was_never_live_is_unprotected() {
    assert!(!peer_is_protected(None, now()));
}

#[test]
fn configured_pin_rejects_a_foreign_ip_even_when_unlatched() {
    let pin = Some(peer().ip);
    assert!(!source_allowed(stranger(), pin, None, None, now()));
    assert!(source_allowed(
        SocketAddr::v4(198, 51, 100, 4, 41234),
        pin,
        None,
        None,
        now()
    ));
}

/// Zero is what a receiver emits until it knows the sender, so it must be
/// accepted or ARQ stalls at session start.
#[test]
fn nack_ssrc_zero_is_accepted() {
    assert!(nack_targets_us(0, 0xDEAD_BEEE));
}

#[test]
fn nack_ssrc_matches_ignoring_the_retransmit_flag() {
    let ours = 0xDEAD_BEEEu32; // sender SSRCs always have LSB = 0
    assert!(nack_targets_us(ours, ours));
    assert!(nack_targets_us(ours | 1, ours));
    assert!(!nack_targets_us(ours ^ 0x0100_0000, ours));
}

#[test]
fn budget_is_never_tighter_than_the_shipped_per_nack_cap() {
    assert_eq!(
        NackWorkBudget::for_capacity(64).retx,
        NackWorkBudget::MIN_RETX
    );
    assert_eq!(NackWorkBudget::for_capacity(2048).retx, 2048);
    assert_eq!(
        NackWorkBudget::for_capacity(65536).retx,
        NackWorkBudget::MAX_RETX
    );
}

#[test]
fn budget_drains_and_then_refuses() {
    let mut b = NackWorkBudget::for_capacity(512);
    for _ in 0..512 {
        assert!(b.charge_retx());
    }
    assert!(!b.charge_retx());
    // Scan headroom is 4x so misses cannot starve hits.
    assert_eq!(b.scan, 2048);
    for _ in 0..2048 {
        assert!(b.charge_scan());
    }
    assert!(!b.charge_scan());
}

#[test]
fn rtcp_takes_the_next_port() {
    let rtp = SocketAddr {
        ip: IpAddr::V6(1),
        port: 5000,
        flowinfo: 7,
        scope_id: 8,
    };
    let rtcp = SocketAddr::new(IpAddr::V6(1), 5001);
    assert_eq!(rtcp_addr_for(rtp), rtcp);
    assert_eq!(rtcp_bind_addr(rtp), Ok(rtcp));
    assert_eq!(
        rtcp_bind_addr(SocketAddr::v4(127, 0, 0, 1, 5001)),
        Err(ChannelError::OddPort(5001))
    );
}

#[test]
fn socket_defaults() {
    let config = RistSocketConfig::default();
    assert_eq!(config.local_addr, SocketAddr::v4(0, 0, 0, 0, 5000));
    assert_eq!(config.buffer_size, Duration::from_millis(1000));
    assert_eq!(config.max_nack_retries, 10);
    assert_eq!(config.rtcp_interval, Duration::from_millis(100));
    assert_eq!(config.retransmit_buffer_capacity, 2048);
    assert!(config.rtt_echo_enabled);
    let named = RistSocketConfig {
        cname: Some("me".to_string()),
        ..config
    };
    assert_eq!(named.clone().cname, Some("me".to_string()));
}

#[test]
fn snapshot_copies_the_counters() {
    let mut stats = RistConnStats::new();
    stats.packets_sent = 3;
    stats.jitter_us = 4;
    let snapshot = stats.snapshot();
    assert_eq!(snapshot.packets_sent, 3);
    assert_eq!(snapshot.jitter_us, 4);
    assert_eq!(snapshot.packets_lost, 0);
}

#[test]
fn version_field_values() {
    assert_eq!(RistVersion::V2020.bits(), 0);
    assert_eq!(RistVersion::V2021.bits(), 1);
    assert_eq!(RistVersion::V2022.bits(), 2);
}
