//! Admission guards for an unauthenticated RIST Simple Profile session.
//!
//! RIST Simple Profile (TR-06-1:2020) has **no authentication**: there is no
//! handshake, no shared secret and no per-packet MAC. Anything arriving on the
//! RTP or RTCP port is, at the protocol level, indistinguishable from the peer.
//! What these predicates give is a *hold-down*:
//!
//! * A peer slot that has been **live**, carrying media or valid RTCP, within
//!   the grace window does not move to a different source **IP**.
//! * A move within the **same IP** is always allowed, because that is a NAT
//!   rebinding a real peer performs routinely.
//! * A slot that has **never** been live is last-writer-wins, so a session can
//!   still bootstrap against a peer whose address nobody configured.

use vstd::prelude::*;

use crate::time::{Duration, Instant};
use crate::transport::net::{IpAddr, SocketAddr};

verus! {

/// How long a peer slot stays pinned to its current source IP after the last
/// packet accepted from it, in seconds. Long enough to span an RTCP gap plus a
/// deep reorder buffer; short enough that a genuine sender restart from a new
/// address recovers without operator action.
pub const PEER_TAKEOVER_GRACE_SECS: u64 = 12;

/// How long a peer slot stays pinned to its current source IP after the last
/// packet accepted from it.
pub fn peer_takeover_grace() -> (d: Duration)
    ensures
        d.nanos == 12_000_000_000,
{
    Duration::from_secs(PEER_TAKEOVER_GRACE_SECS)
}

/// Whether a slot last live at `last_live` is held for its peer at `now`.
pub open spec fn held_for_peer(last_live: Option<Instant>, now: Instant) -> bool {
    last_live matches Some(t) && now.duration_since(t).nanos < 12_000_000_000
}

/// Whether a datagram from `from` may be accepted for a slot latched to `current`.
pub open spec fn may_move(
    from: SocketAddr,
    current: SocketAddr,
    last_live: Option<Instant>,
    now: Instant,
) -> bool {
    from.ip == current.ip || !held_for_peer(last_live, now)
}

/// Whether a datagram from `from` may be accepted for a slot that may be
/// pinned to an IP, and may not be latched yet.
pub open spec fn admits(
    from: SocketAddr,
    pinned_ip: Option<IpAddr>,
    current: Option<SocketAddr>,
    last_live: Option<Instant>,
    now: Instant,
) -> bool {
    &&& pinned_ip matches Some(ip) ==> from.ip == ip
    &&& current matches Some(peer) ==> may_move(from, peer, last_live, now)
}

/// Is a peer slot protected from moving to a different source IP?
///
/// `None` means the slot has never been live and is deliberately unprotected:
/// that is the bootstrap path.
pub fn peer_is_protected(last_live: Option<Instant>, now: Instant) -> (b: bool)
    ensures
        b == held_for_peer(last_live, now),
{
    match last_live {
        None => false,
        Some(t) => now.duration_since(t).nanos < peer_takeover_grace().nanos,
    }
}

/// May a datagram from `from` be accepted for a slot currently latched to
/// `current`, and latch the slot to `from` if it differs?
///
/// Same address: trivially yes. Same IP, different port: yes, NAT rebinding.
/// Different IP: only while the slot is unprotected.
pub fn peer_move_allowed(
    from: SocketAddr,
    current: SocketAddr,
    last_live: Option<Instant>,
    now: Instant,
) -> (b: bool)
    ensures
        b == may_move(from, current, last_live, now),
{
    from.ip == current.ip || !peer_is_protected(last_live, now)
}

/// Same decision for a slot that may not be latched yet (`None` = unlatched,
/// so anything is accepted), plus an optional operator-configured source-IP
/// pin that overrides everything.
///
/// Only the **IP** is compared: a sender's source port is its own bound port
/// (ephemeral for librist's `ristsender`), so pinning the port would reject
/// legitimate peers.
pub fn source_allowed(
    from: SocketAddr,
    pinned_ip: Option<IpAddr>,
    current: Option<SocketAddr>,
    last_live: Option<Instant>,
    now: Instant,
) -> (b: bool)
    ensures
        b == admits(from, pinned_ip, current, last_live, now),
{
    if let Some(ip) = pinned_ip {
        if from.ip != ip {
            return false;
        }
    }
    match current {
        None => true,
        Some(cur) => peer_move_allowed(from, cur, last_live, now),
    }
}

/// Whether a NACK that names `media_ssrc` is for the media of `our_ssrc`: it
/// names it, with or without the retransmit flag in the lowest bit, or none.
pub open spec fn targets(media_ssrc: u32, our_ssrc: u32) -> bool {
    media_ssrc == 0 || media_ssrc / 2 == our_ssrc / 2
}

/// Does a NACK naming `media_ssrc` refer to media *we* sent?
///
/// The lowest bit of an SSRC is the retransmit flag, so it is masked: a peer
/// that echoed a retransmit-flagged SSRC still matches. Zero is accepted for
/// receivers that name no source before they have seen a Sender Report.
pub fn nack_targets_us(media_ssrc: u32, our_ssrc: u32) -> (b: bool)
    ensures
        b == targets(media_ssrc, our_ssrc),
{
    assert((media_ssrc & !1u32 == our_ssrc & !1u32) == (media_ssrc / 2 == our_ssrc / 2))
        by (bit_vector);
    media_ssrc == 0 || media_ssrc & !1u32 == our_ssrc & !1u32
}

/// Per-received-datagram budget for the retransmit work one RTCP datagram may
/// force out of the sender.
///
/// The budget is created once per datagram and threaded through every NACK in
/// the compound: a cap on a single NACK sub-packet is no bound, since a
/// datagram holds many of them.
///
/// `retx` is seeded from the retransmit ring's capacity: serving more
/// retransmits than the ring holds is duplicate work. `scan` (sequence numbers
/// looked up, hit or miss) is four times that, so requests that miss the ring
/// cannot starve the ones that hit.
#[derive(Debug, Clone, Copy, PartialEq, Eq, Structural)]
pub struct NackWorkBudget {
    /// Sequence numbers still allowed to be looked up for this datagram.
    pub scan: u32,
    /// Retransmit datagrams still allowed to be emitted for this datagram.
    pub retx: u32,
}

impl NackWorkBudget {
    /// The fewest retransmits a datagram may ask for.
    pub const MIN_RETX: u32 = 512;

    /// The most retransmits a datagram may ask for.
    pub const MAX_RETX: u32 = 8192;

    /// The budget of a datagram for a ring of `capacity` packets.
    pub open spec fn sized(capacity: int) -> NackWorkBudget {
        let retx: u32 = if capacity < 512 {
            512
        } else if capacity > 8192 {
            8192
        } else {
            capacity as u32
        };
        NackWorkBudget { scan: (retx * 4) as u32, retx }
    }

    /// Budget for one received RTCP datagram, sized from the sender's
    /// retransmit ring capacity.
    pub fn for_capacity(retransmit_capacity: usize) -> (b: Self)
        ensures
            b == Self::sized(retransmit_capacity as int),
    {
        let retx: u32 = if retransmit_capacity < Self::MIN_RETX as usize {
            Self::MIN_RETX
        } else if retransmit_capacity > Self::MAX_RETX as usize {
            Self::MAX_RETX
        } else {
            retransmit_capacity as u32
        };
        Self { scan: retx * 4, retx }
    }

    /// Charge one sequence-number lookup. `false` means the datagram's scan
    /// budget is spent and the caller must stop walking its entries.
    pub fn charge_scan(&mut self) -> (b: bool)
        ensures
            b == (old(self).scan > 0),
            final(self).scan == (if b {
                old(self).scan - 1
            } else {
                0
            }),
            final(self).retx == old(self).retx,
    {
        if self.scan == 0 {
            return false;
        }
        self.scan = self.scan - 1;
        true
    }

    /// Charge one retransmit about to go on the wire. `false` means the
    /// datagram's retransmit budget is spent.
    pub fn charge_retx(&mut self) -> (b: bool)
        ensures
            b == (old(self).retx > 0),
            final(self).retx == (if b {
                old(self).retx - 1
            } else {
                0
            }),
            final(self).scan == old(self).scan,
    {
        if self.retx == 0 {
            return false;
        }
        self.retx = self.retx - 1;
        true
    }
}

/// A live slot stays with its peer: no other IP is admitted until the grace
/// window has passed, and the peer's own IP always is.
pub proof fn law_live_slot_keeps_its_peer(
    from: SocketAddr,
    peer: SocketAddr,
    live: Instant,
    now: Instant,
)
    requires
        now.duration_since(live).nanos < 12_000_000_000,
    ensures
        admits(from, None, Some(peer), Some(live), now) <==> from.ip == peer.ip,
{
}

/// A slot that was never live, or has been silent for the grace window,
/// admits anyone.
pub proof fn law_silent_slot_admits_anyone(
    from: SocketAddr,
    current: Option<SocketAddr>,
    live: Option<Instant>,
    now: Instant,
)
    requires
        live matches Some(t) ==> now.duration_since(t).nanos >= 12_000_000_000,
    ensures
        admits(from, None, current, live, now),
{
}

/// A configured source is the only one admitted, whatever the slot's state.
pub proof fn law_pin_overrides(
    from: SocketAddr,
    pin: IpAddr,
    current: Option<SocketAddr>,
    live: Option<Instant>,
    now: Instant,
)
    requires
        from.ip != pin,
    ensures
        !admits(from, Some(pin), current, live, now),
{
}

/// The budget lets every packet that the ring holds be asked for once, as far
/// as the ceiling reaches, and four lookups for each.
pub proof fn law_budget_covers_the_ring(capacity: int)
    requires
        capacity <= 8192,
    ensures
        NackWorkBudget::sized(capacity).retx >= capacity,
        NackWorkBudget::sized(capacity).retx >= 512,
        NackWorkBudget::sized(capacity).scan == NackWorkBudget::sized(capacity).retx * 4,
{
}

/// A NACK is for us where it names no source, our source, or the number next to
/// it that flags its retransmissions.
pub proof fn law_nack_is_for_its_source(media_ssrc: u32, our_ssrc: u32)
    requires
        our_ssrc % 2 == 0,
    ensures
        targets(media_ssrc, our_ssrc) <==> media_ssrc == 0 || media_ssrc == our_ssrc || media_ssrc
            == our_ssrc + 1,
{
}

/// The budget is the ring's capacity, at least 512 and at most 8192, and four
/// lookups for each.
pub proof fn law_budget_follows_the_ring(capacity: int)
    ensures
        512 <= capacity <= 8192 ==> NackWorkBudget::sized(capacity).retx == capacity,
        capacity < 512 ==> NackWorkBudget::sized(capacity).retx == 512,
        capacity > 8192 ==> NackWorkBudget::sized(capacity).retx == 8192,
        NackWorkBudget::sized(capacity).scan == 4 * NackWorkBudget::sized(capacity).retx,
{
}

/// Another host takes a slot over from the moment at which its peer has been
/// silent for 12 seconds, and not before.
pub proof fn law_slot_is_held_for_12_seconds(
    from: SocketAddr,
    current: SocketAddr,
    live: Instant,
    now: Instant,
)
    requires
        from.ip != current.ip,
    ensures
        may_move(from, current, Some(live), now) <==> now.nanos >= live.nanos + 12_000_000_000,
        may_move(from, current, None, now),
        may_move(current, current, Some(live), now),
{
}

} // verus!
