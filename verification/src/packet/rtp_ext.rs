//! RTP header extensions (RFC 8285) for RIST features.
//!
//! The Main Profile uses them for null packet deletion, where sequence numbers
//! are extended to 32 bits.

use vstd::prelude::*;

verus! {

/// RTP header extension for RIST extended sequence numbers.
///
/// The 16-bit RTP sequence number is extended to 32 bits by carrying the
/// upper 16 bits in a one-byte header extension.
#[derive(Debug, Clone, Copy, PartialEq, Eq, Structural)]
pub struct ExtendedSequenceNumber {
    /// Upper 16 bits of the 32-bit extended sequence number.
    pub seq_hi: u16,
}

impl ExtendedSequenceNumber {
    /// The 32-bit sequence number of the packet with RTP sequence number `rtp_seq`.
    pub fn full_seq(&self, rtp_seq: u16) -> (full: u32)
        ensures
            full == self.seq_hi * 65_536 + rtp_seq,
    {
        let hi: u16 = self.seq_hi;
        assert(((hi as u32) << 16) | (rtp_seq as u32) == hi * 65_536 + rtp_seq) by (bit_vector);
        ((hi as u32) << 16) | (rtp_seq as u32)
    }
}

} // verus!
