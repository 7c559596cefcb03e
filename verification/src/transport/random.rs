//! Random identifiers.

use vstd::prelude::*;

verus! {

/// `rand::random::<u32>`: any 32-bit number.
#[verifier::external_body]
fn random_u32() -> (n: u32) {
    rand::random::<u32>()
}

/// The SSRC made from a random number: its lowest bit cleared.
///
/// librist treats an odd SSRC on an RTP data packet as a retransmission flag,
/// and rejects the first such packet of a flow, so media sources are even.
pub fn even_ssrc(random: u32) -> (ssrc: u32)
    ensures
        ssrc == random / 2 * 2,
        ssrc % 2 == 0,
{
    assert(random & !1u32 == random / 2 * 2) by (bit_vector);
    random & !1u32
}

/// A fresh SSRC for a session.
pub fn fresh_ssrc() -> (ssrc: u32)
    ensures
        ssrc % 2 == 0,
{
    even_ssrc(random_u32())
}

/// The sequence number made from a random number: its low 16 bits.
pub fn low_seq(random: u32) -> (seq: u16)
    ensures
        seq == random % 65_536,
{
    (random % 65_536) as u16
}

/// A fresh first sequence number for a session.
pub fn fresh_seq() -> u16 {
    low_seq(random_u32())
}

} // verus!
