//! Multi-path bonding manager for SMPTE 2022-7 redundancy.
//!
//! When bonding is active:
//! - Sender duplicates each RTP packet across all paths
//! - Receiver merges packets from all paths via BondingMerger

use vstd::prelude::*;

use crate::protocol::bonding::{BondingMerger, MergerView};
use crate::transport::net::SocketAddr;

verus! {

/// Bonding configuration for a RIST connection.
#[derive(Debug)]
pub struct BondingConfig {
    /// Additional remote addresses for bonded paths.
    /// The primary address is in the main RistSocketConfig.
    pub additional_paths: Vec<SocketAddr>,
}

impl Clone for BondingConfig {
    fn clone(&self) -> (c: Self)
        ensures
            c.additional_paths@ == self.additional_paths@,
    {
        let additional_paths: Vec<SocketAddr> = self.additional_paths.clone();
        assert(additional_paths@ =~= self.additional_paths@);
        BondingConfig { additional_paths }
    }
}

/// Bonding state for a receiver.
#[derive(Debug)]
pub struct ReceiverBonding {
    pub merger: BondingMerger,
}

impl ReceiverBonding {
    pub fn new() -> (b: Self)
        ensures
            b.merger@ == (MergerView {
                highest: None,
                seen: Set::empty(),
                packets_emitted: 0,
                duplicates_dropped: 0,
                late_dropped: 0,
            }),
            b.merger@.valid(),
    {
        Self { merger: BondingMerger::new() }
    }
}

impl Default for ReceiverBonding {
    fn default() -> (b: Self)
        ensures
            b.merger@ == (MergerView {
                highest: None,
                seen: Set::empty(),
                packets_emitted: 0,
                duplicates_dropped: 0,
                late_dropped: 0,
            }),
            b.merger@.valid(),
    {
        Self::new()
    }
}

} // verus!
