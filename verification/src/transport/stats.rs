//! Connection-level counters of a sender or a receiver.

use vstd::prelude::*;

verus! {

/// Role of the socket these stats belong to.
#[derive(Debug, Clone, Copy, PartialEq, Eq, Structural)]
pub enum RistRole {
    Sender,
    Receiver,
}

/// Counters populated by the sender and the receiver. They wrap at 64 bits.
#[derive(Debug, Clone, Copy, PartialEq, Eq, Structural)]
pub struct RistConnStats {
    // Sender counters
    pub packets_sent: u64,
    pub bytes_sent: u64,
    pub packets_retransmitted: u64,
    pub nacks_received: u64,
    // Receiver counters
    pub packets_received: u64,
    pub bytes_received: u64,
    pub packets_lost: u64,
    pub packets_recovered: u64,
    pub nacks_sent: u64,
    pub duplicates: u64,
    pub reorder_drops: u64,
    /// RTP data packets whose SSRC carried the RIST retransmit flag
    /// (LSB=1). This is the authoritative ARQ-recovered-via-retransmit
    /// count: `packets_recovered` also fires on pure out-of-order
    /// arrivals that fill a gap without ever being requested.
    pub retransmits_received: u64,
    /// Smoothed RTT expressed in microseconds. `0` when no RTT sample yet.
    pub rtt_us: u64,
    /// Interarrival jitter (RFC 3550 A.8) scaled to microseconds.
    pub jitter_us: u64,
}

/// Plain-data snapshot for external consumers.
#[derive(Debug, Clone, Copy, Default, PartialEq, Eq, Structural)]
pub struct RistConnStatsSnapshot {
    pub packets_sent: u64,
    pub bytes_sent: u64,
    pub packets_retransmitted: u64,
    pub nacks_received: u64,
    pub packets_received: u64,
    pub bytes_received: u64,
    pub packets_lost: u64,
    pub packets_recovered: u64,
    pub nacks_sent: u64,
    pub duplicates: u64,
    pub reorder_drops: u64,
    pub retransmits_received: u64,
    pub rtt_us: u64,
    pub jitter_us: u64,
}

/// `a + b`, modulo 2^64.
pub open spec fn plus64(a: u64, b: int) -> u64 {
    ((a + b) % 0x1_0000_0000_0000_0000) as u64
}

impl RistConnStats {
    /// All counters at zero.
    pub open spec fn zero() -> RistConnStats {
        RistConnStats {
            packets_sent: 0,
            bytes_sent: 0,
            packets_retransmitted: 0,
            nacks_received: 0,
            packets_received: 0,
            bytes_received: 0,
            packets_lost: 0,
            packets_recovered: 0,
            nacks_sent: 0,
            duplicates: 0,
            reorder_drops: 0,
            retransmits_received: 0,
            rtt_us: 0,
            jitter_us: 0,
        }
    }

    pub fn new() -> (s: Self)
        ensures
            s == Self::zero(),
    {
        RistConnStats {
            packets_sent: 0,
            bytes_sent: 0,
            packets_retransmitted: 0,
            nacks_received: 0,
            packets_received: 0,
            bytes_received: 0,
            packets_lost: 0,
            packets_recovered: 0,
            nacks_sent: 0,
            duplicates: 0,
            reorder_drops: 0,
            retransmits_received: 0,
            rtt_us: 0,
            jitter_us: 0,
        }
    }

    /// Capture all counters.
    pub fn snapshot(&self) -> (s: RistConnStatsSnapshot)
        ensures
            s == (RistConnStatsSnapshot {
                packets_sent: self.packets_sent,
                bytes_sent: self.bytes_sent,
                packets_retransmitted: self.packets_retransmitted,
                nacks_received: self.nacks_received,
                packets_received: self.packets_received,
                bytes_received: self.bytes_received,
                packets_lost: self.packets_lost,
                packets_recovered: self.packets_recovered,
                nacks_sent: self.nacks_sent,
                duplicates: self.duplicates,
                reorder_drops: self.reorder_drops,
                retransmits_received: self.retransmits_received,
                rtt_us: self.rtt_us,
                jitter_us: self.jitter_us,
            }),
    {
        RistConnStatsSnapshot {
            packets_sent: self.packets_sent,
            bytes_sent: self.bytes_sent,
            packets_retransmitted: self.packets_retransmitted,
            nacks_received: self.nacks_received,
            packets_received: self.packets_received,
            bytes_received: self.bytes_received,
            packets_lost: self.packets_lost,
            packets_recovered: self.packets_recovered,
            nacks_sent: self.nacks_sent,
            duplicates: self.duplicates,
            reorder_drops: self.reorder_drops,
            retransmits_received: self.retransmits_received,
            rtt_us: self.rtt_us,
            jitter_us: self.jitter_us,
        }
    }
}

impl Default for RistConnStats {
    fn default() -> (s: Self)
        ensures
            s == Self::zero(),
    {
        Self::new()
    }
}

/// Counters start at zero, and count modulo 2^64.
pub proof fn law_counters_start_at_zero(a: u64, b: int)
    ensures
        ({
            let s = RistConnStats::zero();
            &&& s.packets_sent == 0 && s.bytes_sent == 0 && s.packets_retransmitted == 0
            &&& s.nacks_received == 0 && s.packets_received == 0 && s.bytes_received == 0
            &&& s.packets_lost == 0 && s.packets_recovered == 0 && s.nacks_sent == 0
            &&& s.duplicates == 0 && s.reorder_drops == 0 && s.retransmits_received == 0
            &&& s.rtt_us == 0 && s.jitter_us == 0
        }),
        0 <= a + b <= u64::MAX ==> plus64(a, b) == a + b,
        (a + b - plus64(a, b)) % 0x1_0000_0000_0000_0000 == 0,
{
}

} // verus!
