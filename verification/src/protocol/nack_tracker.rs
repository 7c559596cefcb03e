//! NACK-based retransmission tracking.
//!
//! Sender side: maintains a ring buffer of recently sent packets for retransmission.
//! Receiver side: detects gaps in sequence numbers and schedules NACKs.
//!
//! Both use O(1) flat ring buffers indexed by `seq % capacity`.

use bytes::Bytes;
use vstd::prelude::*;

use crate::octets;
use crate::protocol::ring;
use crate::serial;
use crate::time::{Duration, Instant};

verus! {

#[derive(Debug)]
struct RetransmitSlot {
    /// Sequence number that occupies this slot (used to detect stale entries).
    seq: u16,
    /// The full RTP packet (header + payload).
    data: Bytes,
}

/// The contents of a [`RetransmitBuffer`]: the packets that can be sent again.
#[verifier::ext_equal]
pub struct RetransmitView {
    pub capacity: int,
    pub packets: Map<u16, Seq<u8>>,
}

impl RetransmitView {
    /// The contents after storing a packet, which pushes out the one that
    /// shares its slot.
    pub open spec fn after_insert(self, seq: u16, data: Seq<u8>) -> RetransmitView {
        RetransmitView {
            packets: Map::new(
                |s: u16|
                    s == seq || (self.packets.dom().contains(s) && ring::slot_of(s, self.capacity)
                        != ring::slot_of(seq, self.capacity)),
                |s: u16|
                    if s == seq {
                        data
                    } else {
                        self.packets[s]
                    },
            ),
            ..self
        }
    }
}

/// Sender-side retransmit buffer with O(1) insert and lookup.
///
/// Fixed-size flat array indexed by `seq % capacity`. Each slot stores the
/// packet data and the sequence number that wrote it. Lookup verifies the
/// sequence number matches to detect evicted entries.
#[derive(Debug)]
pub struct RetransmitBuffer {
    slots: Vec<Option<RetransmitSlot>>,
    capacity: usize,
}

impl View for RetransmitBuffer {
    type V = RetransmitView;

    closed spec fn view(&self) -> RetransmitView {
        RetransmitView {
            capacity: self.capacity as int,
            packets: Map::new(
                |s: u16|
                    self.slots@[ring::slot_of(s, self.capacity as int)] is Some
                        && self.slots@[ring::slot_of(s, self.capacity as int)]->0.seq == s,
                |s: u16|
                    octets::content(
                        self.slots@[ring::slot_of(s, self.capacity as int)]->0.data,
                    ),
            ),
        }
    }
}

impl RetransmitBuffer {
    /// The buffer's invariant: its slots are as many as its capacity, in which
    /// sequence numbers keep their slot when they wrap.
    pub closed spec fn wf(&self) -> bool {
        &&& self.slots@.len() == self.capacity
        &&& ring::ring_fits(self.capacity as int)
    }

    /// An empty buffer of at least `capacity` slots, rounded up to a power of two.
    pub fn new(capacity: usize) -> (b: Self)
        requires
            capacity <= usize::MAX / 2 + 1,
        ensures
            b.wf(),
            b@.packets == Map::<u16, Seq<u8>>::empty(),
            ring::is_power_of_two(b@.capacity),
            b@.capacity >= capacity,
            b@.capacity == 1 || b@.capacity / 2 < capacity,
    {
        let capacity: usize = ring::next_power_of_two(capacity);
        let mut slots: Vec<Option<RetransmitSlot>> = Vec::with_capacity(capacity);
        while slots.len() < capacity
            invariant
                slots@.len() <= capacity,
                forall|i: int| 0 <= i < slots@.len() ==> #[trigger] slots@[i] is None,
            decreases capacity - slots@.len(),
        {
            slots.push(None);
        }
        let b = Self { slots, capacity };
        proof {
            assert forall|s: u16| !b@.packets.dom().contains(s) by {
                ring::lemma_slot_in_ring(s, capacity as int);
            }
            assert(b@.packets =~= Map::empty());
        }
        b
    }

    /// Store a packet for potential retransmission. O(1).
    pub fn insert(&mut self, seq: u16, data: Bytes)
        requires
            old(self).wf(),
        ensures
            final(self).wf(),
            final(self)@ == old(self)@.after_insert(seq, octets::content(data)),
    {
        let idx: usize = seq as usize % self.capacity;
        proof {
            ring::lemma_slot_in_ring(seq, self.capacity as int);
        }
        self.slots.set(idx, Some(RetransmitSlot { seq, data }));
        proof {
            let after = old(self)@.after_insert(seq, octets::content(data));
            assert forall|s: u16|
                self@.packets.dom().contains(s) == after.packets.dom().contains(s) && (
                self@.packets.dom().contains(s) ==> self@.packets[s] == after.packets[s]) by {
                ring::lemma_slot_in_ring(s, self.capacity as int);
            }
            assert(self@.packets =~= after.packets);
        }
    }

    /// Look up a packet by sequence number. O(1).
    /// Returns `None` if the slot has been overwritten by a newer packet.
    pub fn get(&self, seq: u16) -> (r: Option<&Bytes>)
        requires
            self.wf(),
        ensures
            match r {
                Some(data) => self@.packets.dom().contains(seq) && octets::content(*data)
                    == self@.packets[seq],
                None => !self@.packets.dom().contains(seq),
            },
    {
        let idx: usize = seq as usize % self.capacity;
        proof {
            ring::lemma_slot_in_ring(seq, self.capacity as int);
        }
        match &self.slots[idx] {
            Some(slot) => if slot.seq == seq {
                Some(&slot.data)
            } else {
                None
            },
            None => None,
        }
    }

    /// Number of slots.
    pub fn capacity(&self) -> (c: usize)
        ensures
            c == self@.capacity,
    {
        self.capacity
    }
}

/// A stored packet is found again as it was, until one that shares its slot
/// comes in: the packets sent after it do not push it out before a full ring
/// of them has been stored.
pub proof fn law_recent_packets_are_found(
    v: RetransmitView,
    seq: u16,
    data: Seq<u8>,
    later: u16,
    other: Seq<u8>,
)
    requires
        ring::ring_fits(v.capacity),
        0 < serial::ahead(seq, later) < v.capacity,
    ensures
        v.after_insert(seq, data).packets.dom().contains(seq),
        v.after_insert(seq, data).packets[seq] == data,
        v.packets.dom().contains(seq) ==> v.after_insert(later, other).packets.dom().contains(seq)
            && v.after_insert(later, other).packets[seq] == v.packets[seq],
{
    if ring::slot_of(seq, v.capacity) == ring::slot_of(later, v.capacity) {
        ring::lemma_slots_are_distinct(seq, seq, later, v.capacity);
    }
}

/// Number of slots of a [`NackScheduler`]: covers about 0.6 s at 7000 packets
/// per second.
pub const NACK_CAPACITY: usize = 4096;

/// The longest gap that is asked for again. A longer one is taken for a
/// discontinuity of the stream.
pub const MAX_NACK_GAP: u16 = 1000;

/// State of a pending NACK for a single lost sequence number.
#[derive(Debug, Clone, Copy)]
struct NackSlot {
    /// The sequence number this slot tracks. Used to detect stale entries.
    seq: u16,
    /// Whether this slot is active (has a pending NACK).
    active: bool,
    /// When the next NACK should be sent.
    next_nack_at: Instant,
    /// Number of NACKs sent for this entry.
    nack_count: u32,
}

/// What is known of a lost packet: when to ask for it next, and how often it
/// has been asked for.
pub struct NackEntry {
    pub next_nack_at: Instant,
    pub nack_count: u32,
}

impl NackEntry {
    /// Whether it is time for the next request, or for giving the packet up.
    pub open spec fn due(self, now: Instant) -> bool {
        now.nanos >= self.next_nack_at.nanos
    }
}

/// The contents of a [`NackScheduler`].
#[verifier::ext_equal]
pub struct NackView {
    pub max_retries: u32,
    pub base_delay: Duration,
    /// Expected next sequence number.
    pub expected: Option<u16>,
    /// The lost packets that are still wanted.
    pub pending: Map<u16, NackEntry>,
}

/// Whether two sequence numbers share a slot.
pub open spec fn same_slot(s: u16, t: u16) -> bool {
    s % 4096 == t % 4096
}

impl NackView {
    /// The contents after `seq` is first missed at `now`. It pushes out a lost
    /// packet that shares its slot.
    pub open spec fn tracking(self, seq: u16, now: Instant) -> NackView {
        NackView {
            pending: Map::new(
                |s: u16| s == seq || (self.pending.dom().contains(s) && !same_slot(s, seq)),
                |s: u16|
                    if s == seq {
                        NackEntry { next_nack_at: now.after(self.base_delay), nack_count: 0 }
                    } else {
                        self.pending[s]
                    },
            ),
            ..self
        }
    }

    /// The contents, and the numbers newly missed, after the `n` numbers from
    /// `first` on are missed at `now`.
    pub open spec fn missing(self, first: u16, n: nat, now: Instant) -> (NackView, Seq<u16>)
        decreases n,
    {
        if n == 0 {
            (self, Seq::empty())
        } else {
            let (v, gaps) = self.missing(first, (n - 1) as nat, now);
            let seq = serial::plus(first, n - 1);
            if v.pending.dom().contains(seq) {
                (v, gaps)
            } else {
                (v.tracking(seq, now), gaps.push(seq))
            }
        }
    }

    /// The contents without `seq`, which is wanted no more.
    pub open spec fn without(self, seq: u16) -> NackView {
        NackView { pending: self.pending.remove(seq), ..self }
    }

    /// The contents, and the numbers newly missed, after packet `seq` arrives.
    pub open spec fn after_packet(self, seq: u16, now: Instant) -> (NackView, Seq<u16>) {
        let ahead = NackView { expected: Some(serial::plus(seq, 1)), ..self };
        match self.expected {
            None => (ahead, Seq::empty()),
            Some(expected) => {
                let gap = serial::diff(expected, seq);
                if gap < 0 {
                    (self.without(seq), Seq::empty())
                } else if gap <= MAX_NACK_GAP {
                    ahead.missing(expected, gap as nat, now)
                } else {
                    (ahead, Seq::empty())
                }
            },
        }
    }

    /// Whether packet `seq` is asked for at `now`.
    pub open spec fn asked_for(self, seq: u16, now: Instant) -> bool {
        &&& self.pending.dom().contains(seq)
        &&& self.pending[seq].due(now)
        &&& self.pending[seq].nack_count < self.max_retries
    }

    /// Whether packet `seq` is given up at `now`.
    pub open spec fn given_up(self, seq: u16, now: Instant) -> bool {
        &&& self.pending.dom().contains(seq)
        &&& self.pending[seq].due(now)
        &&& self.pending[seq].nack_count >= self.max_retries
    }

    /// The contents after the requests due at `now` have been handed out, to
    /// be repeated after `retry_delay`.
    pub open spec fn after_nacks(self, now: Instant, retry_delay: Duration) -> NackView {
        NackView {
            pending: Map::new(
                |s: u16| self.pending.dom().contains(s) && !self.given_up(s, now),
                |s: u16|
                    if self.asked_for(s, now) {
                        NackEntry {
                            next_nack_at: now.after(retry_delay),
                            nack_count: (self.pending[s].nack_count + 1) as u32,
                        }
                    } else {
                        self.pending[s]
                    },
            ),
            ..self
        }
    }
}

/// Whether `list` holds the sequence numbers of which `wanted` holds, in
/// ascending order, each once.
pub open spec fn lists_ascending(list: Seq<u16>, wanted: spec_fn(u16) -> bool) -> bool {
    &&& forall|i: int, j: int| 0 <= i < j < list.len() ==> list[i] < list[j]
    &&& forall|s: u16| #[trigger] list.contains(s) <==> wanted(s)
}

/// `<[u16]>::sort_unstable`: puts `v` in ascending order.
#[verifier::external_body]
fn sort_ascending(v: &mut Vec<u16>)
    ensures
        forall|i: int, j: int| 0 <= i <= j < final(v)@.len() ==> final(v)@[i] <= final(v)@[j],
        final(v)@.to_multiset() == old(v)@.to_multiset(),
{
    v.sort_unstable()
}

/// Receiver-side NACK scheduler with O(1) gap detection and NACK tracking.
///
/// Uses a flat ring buffer indexed by `seq % capacity`. Gap detection and
/// recovery marking are both O(1) per packet.
#[derive(Debug)]
pub struct NackScheduler {
    slots: Vec<NackSlot>,
    /// Maximum number of NACK retries per lost packet.
    max_retries: u32,
    /// Base delay before first NACK (overridden by RTT if available).
    base_delay: Duration,
    /// Expected next sequence number.
    expected_seq: Option<u16>,
    /// Number of active (pending) gaps.
    active_count: u32,
}

/// Whether the slot of `seq` is active and tracks it.
spec fn watched(slots: Seq<NackSlot>, seq: u16) -> bool {
    slots[seq as int % 4096].active && slots[seq as int % 4096].seq == seq
}

spec fn pending_of(slots: Seq<NackSlot>) -> Map<u16, NackEntry> {
    Map::new(
        |s: u16| watched(slots, s),
        |s: u16|
            NackEntry {
                next_nack_at: slots[s as int % 4096].next_nack_at,
                nack_count: slots[s as int % 4096].nack_count,
            },
    )
}

/// How many of the slots are active.
spec fn count_active(slots: Seq<NackSlot>) -> nat
    decreases slots.len(),
{
    if slots.len() == 0 {
        0
    } else {
        count_active(slots.drop_last()) + if slots.last().active {
            1nat
        } else {
            0
        }
    }
}

proof fn lemma_count_bound(slots: Seq<NackSlot>)
    ensures
        count_active(slots) <= slots.len(),
    decreases slots.len(),
{
    if slots.len() > 0 {
        lemma_count_bound(slots.drop_last());
    }
}

proof fn lemma_count_update(slots: Seq<NackSlot>, i: int, slot: NackSlot)
    requires
        0 <= i < slots.len(),
    ensures
        count_active(slots.update(i, slot)) == count_active(slots) - (if slots[i].active {
            1int
        } else {
            0
        }) + (if slot.active {
            1int
        } else {
            0
        }),
    decreases slots.len(),
{
    let after = slots.update(i, slot);
    if i == slots.len() - 1 {
        assert(after.drop_last() =~= slots.drop_last());
    } else {
        assert(after.drop_last() =~= slots.drop_last().update(i, slot));
        lemma_count_update(slots.drop_last(), i, slot);
    }
}

/// Whether each active slot is the slot of the number it tracks.
spec fn slots_own(slots: Seq<NackSlot>) -> bool {
    forall|i: int|
        0 <= i < slots.len() && (#[trigger] slots[i]).active ==> slots[i].seq as int % 4096 == i
}

/// The numbers watched by the first `n` slots.
spec fn watched_by(slots: Seq<NackSlot>, n: int) -> Set<u16> {
    Set::new(|s: u16| s as int % 4096 < n && watched(slots, s))
}

proof fn lemma_count_is_pending(slots: Seq<NackSlot>, n: int)
    requires
        slots.len() == 4096,
        slots_own(slots),
        0 <= n <= 4096,
    ensures
        watched_by(slots, n).finite(),
        watched_by(slots, n).len() == count_active(slots.take(n)),
    decreases n,
{
    if n == 0 {
        assert(watched_by(slots, 0) =~= Set::empty());
        assert(slots.take(0).len() == 0);
    } else {
        lemma_count_is_pending(slots, n - 1);
        assert(slots.take(n).drop_last() =~= slots.take(n - 1));
        let slot = slots[n - 1];
        if slot.active {
            assert(slot.seq as int % 4096 == n - 1);
            assert(watched_by(slots, n) =~= watched_by(slots, n - 1).insert(slot.seq));
        } else {
            assert(watched_by(slots, n) =~= watched_by(slots, n - 1));
        }
    }
}

impl View for NackScheduler {
    type V = NackView;

    closed spec fn view(&self) -> NackView {
        NackView {
            max_retries: self.max_retries,
            base_delay: self.base_delay,
            expected: self.expected_seq,
            pending: pending_of(self.slots@),
        }
    }
}

/// What a slot becomes when the requests due at `now` are handed out.
spec fn slot_after_nacks(
    slot: NackSlot,
    now: Instant,
    retry_delay: Duration,
    max_retries: u32,
) -> NackSlot {
    if !slot.active || now.nanos < slot.next_nack_at.nanos {
        slot
    } else if slot.nack_count >= max_retries {
        NackSlot { active: false, ..slot }
    } else {
        NackSlot {
            nack_count: (slot.nack_count + 1) as u32,
            next_nack_at: now.after(retry_delay),
            ..slot
        }
    }
}

/// Whether a slot's packet is asked for at `now`.
spec fn slot_asks(slot: NackSlot, now: Instant, max_retries: u32) -> bool {
    slot.active && now.nanos >= slot.next_nack_at.nanos && slot.nack_count < max_retries
}

impl NackScheduler {
    /// The scheduler's invariant: each active slot is the slot of the number
    /// it tracks, and the count of them is right.
    pub closed spec fn wf(&self) -> bool {
        &&& self.slots@.len() == NACK_CAPACITY
        &&& slots_own(self.slots@)
        &&& self.active_count == count_active(self.slots@)
    }

    /// A scheduler that has seen no packet.
    pub fn new(max_retries: u32, base_delay: Duration) -> (s: Self)
        ensures
            s.wf(),
            s@ == (NackView { max_retries, base_delay, expected: None, pending: Map::empty() }),
    {
        let default_slot = NackSlot {
            seq: 0,
            active: false,
            next_nack_at: Instant::from_nanos(0),
            nack_count: 0,
        };
        let mut slots: Vec<NackSlot> = Vec::with_capacity(NACK_CAPACITY);
        while slots.len() < NACK_CAPACITY
            invariant
                slots@.len() <= NACK_CAPACITY,
                !default_slot.active,
                forall|i: int| 0 <= i < slots@.len() ==> !(#[trigger] slots@[i]).active,
                count_active(slots@) == 0,
            decreases NACK_CAPACITY - slots@.len(),
        {
            let ghost before = slots@;
            slots.push(default_slot);
            assert(slots@.drop_last() =~= before);
        }
        let s = Self { slots, max_retries, base_delay, expected_seq: None, active_count: 0 };
        assert(s@.pending =~= Map::empty());
        s
    }

    /// Starts tracking `seq` unless it is watched already. Returns whether it was new.
    fn track(&mut self, seq: u16, now: Instant) -> (fresh: bool)
        requires
            old(self).wf(),
        ensures
            final(self).wf(),
            fresh == !old(self)@.pending.dom().contains(seq),
            final(self)@ == (if fresh {
                old(self)@.tracking(seq, now)
            } else {
                old(self)@
            }),
    {
        let idx: usize = seq as usize % NACK_CAPACITY;
        let slot: NackSlot = self.slots[idx];
        if slot.active && slot.seq == seq {
            return false;
        }
        let fresh = NackSlot {
            seq,
            active: true,
            next_nack_at: now.after(self.base_delay),
            nack_count: 0,
        };
        proof {
            lemma_count_update(self.slots@, idx as int, fresh);
            lemma_count_bound(self.slots@);
        }
        if !slot.active {
            self.active_count = self.active_count + 1;
        }
        self.slots.set(idx, fresh);
        assert(self@.pending =~= old(self)@.tracking(seq, now).pending);
        true
    }

    /// Process a received RTP packet. Returns the list of newly detected lost
    /// sequence numbers (gaps between expected and received).
    ///
    /// A jump of more than `MAX_NACK_GAP` packets is a discontinuity: the
    /// scheduler goes on from the packet, and asks for nothing before it.
    pub fn on_packet_received(&mut self, seq: u16, now: Instant) -> (new_gaps: Vec<u16>)
        requires
            old(self).wf(),
        ensures
            final(self).wf(),
            final(self)@ == old(self)@.after_packet(seq, now).0,
            new_gaps@ == old(self)@.after_packet(seq, now).1,
    {
        let mut new_gaps: Vec<u16> = Vec::new();
        match self.expected_seq {
            None => {
                self.expected_seq = Some(seq.wrapping_add(1));
            },
            Some(expected) => {
                let gap: i32 = serial::signed_distance(expected, seq);
                if gap < 0 {
                    self.deactivate(seq);
                    return new_gaps;
                }
                self.expected_seq = Some(seq.wrapping_add(1));
                if gap <= MAX_NACK_GAP as i32 {
                    let ghost ahead = self@;
                    let gap: u16 = gap as u16;
                    let mut i: u16 = 0;
                    while i < gap
                        invariant
                            i <= gap,
                            self.wf(),
                            self@ == ahead.missing(expected, i as nat, now).0,
                            new_gaps@ == ahead.missing(expected, i as nat, now).1,
                        decreases gap - i,
                    {
                        let missing: u16 = expected.wrapping_add(i);
                        if self.track(missing, now) {
                            new_gaps.push(missing);
                        }
                        i = i + 1;
                    }
                }
            },
        }
        new_gaps
    }

    /// Mark a sequence number as recovered. O(1).
    pub fn on_packet_recovered(&mut self, seq: u16)
        requires
            old(self).wf(),
        ensures
            final(self).wf(),
            final(self)@ == old(self)@.without(seq),
    {
        self.deactivate(seq);
    }

    fn deactivate(&mut self, seq: u16)
        requires
            old(self).wf(),
        ensures
            final(self).wf(),
            final(self)@ == old(self)@.without(seq),
    {
        let idx: usize = seq as usize % NACK_CAPACITY;
        let slot: NackSlot = self.slots[idx];
        if slot.active && slot.seq == seq {
            let cleared = NackSlot {
                seq: slot.seq,
                active: false,
                next_nack_at: slot.next_nack_at,
                nack_count: slot.nack_count,
            };
            proof {
                lemma_count_update(self.slots@, idx as int, cleared);
            }
            self.slots.set(idx, cleared);
            self.active_count = self.active_count - 1;
        }
        assert(self@.pending =~= old(self)@.without(seq).pending);
    }

    /// Get the list of sequence numbers that need NACKing now, in ascending
    /// order. A lost packet that has been asked for `max_retries` times is
    /// given up when its next request would be due.
    pub fn get_pending_nacks(&mut self, now: Instant, rtt: Option<Duration>) -> (to_nack: Vec<u16>)
        requires
            old(self).wf(),
        ensures
            final(self).wf(),
            final(self)@ == old(self)@.after_nacks(
                now,
                match rtt {
                    Some(delay) => delay,
                    None => old(self)@.base_delay,
                },
            ),
            lists_ascending(to_nack@, |s: u16| old(self)@.asked_for(s, now)),
    {
        let retry_delay: Duration = match rtt {
            Some(delay) => delay,
            None => self.base_delay,
        };
        let mut to_nack: Vec<u16> = Vec::new();
        let ghost before = self.slots@;
        let mut i: usize = 0;
        while i < NACK_CAPACITY
            invariant
                i <= NACK_CAPACITY,
                before == old(self).slots@,
                before.len() == NACK_CAPACITY,
                slots_own(before),
                self.slots@.len() == NACK_CAPACITY,
                self.max_retries == old(self).max_retries,
                self.base_delay == old(self).base_delay,
                self.expected_seq == old(self).expected_seq,
                self.active_count == count_active(self.slots@),
                forall|k: int|
                    #![trigger self.slots@[k]]
                    0 <= k < i ==> self.slots@[k] == slot_after_nacks(
                        before[k],
                        now,
                        retry_delay,
                        self.max_retries,
                    ),
                forall|k: int|
                    #![trigger self.slots@[k]]
                    i <= k < NACK_CAPACITY ==> self.slots@[k] == before[k],
                to_nack@.no_duplicates(),
                forall|k: int|
                    0 <= k < to_nack@.len() ==> (#[trigger] to_nack@[k]) as int % 4096 < i,
                forall|s: u16| #[trigger]
                    to_nack@.contains(s) <==> (s as int % 4096 < i && watched(before, s)
                        && slot_asks(before[s as int % 4096], now, self.max_retries)),
            decreases NACK_CAPACITY - i,
        {
            let slot: NackSlot = self.slots[i];
            let ghost listed = to_nack@;
            proof {
                assert(slot == before[i as int]);
            }
            if slot.active && now.nanos >= slot.next_nack_at.nanos {
                if slot.nack_count >= self.max_retries {
                    let cleared = NackSlot {
                        seq: slot.seq,
                        active: false,
                        next_nack_at: slot.next_nack_at,
                        nack_count: slot.nack_count,
                    };
                    proof {
                        lemma_count_update(self.slots@, i as int, cleared);
                    }
                    self.slots.set(i, cleared);
                    self.active_count = self.active_count - 1;
                } else {
                    let asked = NackSlot {
                        seq: slot.seq,
                        active: true,
                        next_nack_at: now.after(retry_delay),
                        nack_count: slot.nack_count + 1,
                    };
                    proof {
                        lemma_count_update(self.slots@, i as int, asked);
                    }
                    self.slots.set(i, asked);
                    to_nack.push(slot.seq);
                    proof {
                        assert(to_nack@[listed.len() as int] == slot.seq);
                    }
                }
            }
            proof {
                assert forall|s: u16| #[trigger]
                    to_nack@.contains(s) <==> (s as int % 4096 < i + 1 && watched(before, s)
                        && slot_asks(before[s as int % 4096], now, self.max_retries)) by {
                    lemma_pushed(listed, slot.seq, s);
                    if s as int % 4096 == i && watched(before, s) {
                        assert(s == slot.seq);
                    }
                }
            }
            i = i + 1;
        }
        let ghost scanned = to_nack@;
        sort_ascending(&mut to_nack);
        proof {
            lemma_sorted_listing(scanned, to_nack@);
            assert(self@.pending =~= old(self)@.after_nacks(now, retry_delay).pending);
            assert forall|s: u16| #[trigger]
                to_nack@.contains(s) <==> old(self)@.asked_for(s, now) by {
                assert(scanned.contains(s) <==> to_nack@.contains(s));
            }
        }
        to_nack
    }

    /// Number of pending (unrecovered) gaps.
    pub fn pending_count(&self) -> (n: usize)
        requires
            self.wf(),
        ensures
            self@.pending.dom().finite(),
            n == self@.pending.dom().len(),
    {
        proof {
            lemma_count_is_pending(self.slots@, 4096);
            assert(self.slots@.take(4096) =~= self.slots@);
            assert(self@.pending.dom() =~= watched_by(self.slots@, 4096));
        }
        self.active_count as usize
    }

    /// Changes the delay before a lost packet is first asked for.
    pub fn update_base_delay(&mut self, delay: Duration)
        requires
            old(self).wf(),
        ensures
            final(self).wf(),
            final(self)@ == (NackView { base_delay: delay, ..old(self)@ }),
    {
        self.base_delay = delay;
    }
}

proof fn lemma_pushed(list: Seq<u16>, x: u16, s: u16)
    ensures
        list.push(x).contains(s) <==> list.contains(s) || s == x,
{
    let longer = list.push(x);
    assert(longer[list.len() as int] == x);
    if list.contains(s) {
        let k = choose|k: int| 0 <= k < list.len() && list[k] == s;
        assert(longer[k] == s);
    }
    if longer.contains(s) {
        let k = choose|k: int| 0 <= k < longer.len() && longer[k] == s;
        if k < list.len() {
            assert(list[k] == s);
        }
    }
}

/// A list without repetitions, once sorted, ascends strictly and holds the
/// same numbers.
proof fn lemma_sorted_listing(before: Seq<u16>, after: Seq<u16>)
    requires
        before.no_duplicates(),
        before.to_multiset() == after.to_multiset(),
        forall|i: int, j: int| 0 <= i <= j < after.len() ==> after[i] <= after[j],
    ensures
        forall|i: int, j: int| 0 <= i < j < after.len() ==> after[i] < after[j],
        forall|s: u16| #[trigger] before.contains(s) <==> after.contains(s),
{
    broadcast use vstd::seq_lib::to_multiset_contains;

    before.lemma_multiset_has_no_duplicates();
    assert forall|x: u16| after.to_multiset().contains(x) implies after.to_multiset().count(x)
        == 1 by {}
    after.lemma_multiset_has_no_duplicates_conv();
    assert forall|s: u16| #[trigger] before.contains(s) <==> after.contains(s) by {
        assert(before.contains(s) <==> before.to_multiset().count(s) > 0);
        assert(after.contains(s) <==> after.to_multiset().count(s) > 0);
    }
}

/// After a jump of at most `MAX_NACK_GAP` packets, every packet that was
/// skipped is pending.
pub proof fn law_gap_is_pending(v: NackView, seq: u16, now: Instant, i: int)
    requires
        v.expected is Some,
        0 <= i < serial::diff(v.expected->0, seq) <= MAX_NACK_GAP,
    ensures
        v.after_packet(seq, now).0.pending.dom().contains(serial::plus(v.expected->0, i)),
{
    let ahead = NackView { expected: Some(serial::plus(seq, 1)), ..v };
    lemma_missing_is_pending(
        ahead,
        v.expected->0,
        serial::diff(v.expected->0, seq) as nat,
        now,
        i,
    );
}

proof fn lemma_missing_is_pending(v: NackView, first: u16, n: nat, now: Instant, i: int)
    requires
        0 <= i < n <= MAX_NACK_GAP,
    ensures
        v.missing(first, n, now).0.pending.dom().contains(serial::plus(first, i)),
    decreases n,
{
    let shorter = v.missing(first, (n - 1) as nat, now).0;
    let seq = serial::plus(first, n - 1);
    if i < n - 1 {
        lemma_missing_is_pending(v, first, (n - 1) as nat, now, i);
        lemma_different_slots(first, i, n - 1);
    }
}

proof fn lemma_different_slots(first: u16, i: int, j: int)
    requires
        0 <= i < j < 4096,
    ensures
        !same_slot(serial::plus(first, i), serial::plus(first, j)),
{
}

/// Every number reported as newly missed is pending, and was not before.
pub proof fn law_new_gaps_are_new(v: NackView, seq: u16, now: Instant, k: int)
    requires
        0 <= k < v.after_packet(seq, now).1.len(),
    ensures
        v.after_packet(seq, now).0.pending.dom().contains(v.after_packet(seq, now).1[k]),
        !v.pending.dom().contains(v.after_packet(seq, now).1[k]),
{
    let ahead = NackView { expected: Some(serial::plus(seq, 1)), ..v };
    let n = serial::diff(v.expected->0, seq) as nat;
    lemma_missing_are_new(ahead, v.expected->0, n, now, k);
}

proof fn lemma_missing_are_new(v: NackView, first: u16, n: nat, now: Instant, k: int)
    requires
        n <= MAX_NACK_GAP,
        0 <= k < v.missing(first, n, now).1.len(),
    ensures
        v.missing(first, n, now).0.pending.dom().contains(v.missing(first, n, now).1[k]),
        !v.pending.dom().contains(v.missing(first, n, now).1[k]),
        exists|i: int| 0 <= i < n && v.missing(first, n, now).1[k] == #[trigger] serial::plus(first, i),
    decreases n,
{
    if n > 0 {
        let (shorter, gaps) = v.missing(first, (n - 1) as nat, now);
        let seq = serial::plus(first, n - 1);
        if k < gaps.len() {
            lemma_missing_are_new(v, first, (n - 1) as nat, now, k);
            let i = choose|i: int| 0 <= i < n - 1 && gaps[k] == #[trigger] serial::plus(first, i);
            lemma_different_slots(first, i, n - 1);
            assert(v.missing(first, n, now).1[k] == gaps[k]);
        } else {
            lemma_slot_survives(v, first, (n - 1) as nat, now, seq);
            assert(v.missing(first, n, now).1[k] == seq);
        }
    }
}

/// A pending number stays pending while numbers in other slots are missed.
pub proof fn lemma_slot_survives(v: NackView, first: u16, n: nat, now: Instant, seq: u16)
    requires
        forall|i: int| 0 <= i < n ==> !same_slot(#[trigger] serial::plus(first, i), seq),
    ensures
        v.pending.dom().contains(seq) ==> v.missing(first, n, now).0.pending.dom().contains(seq),
    decreases n,
{
    if n > 0 {
        lemma_slot_survives(v, first, (n - 1) as nat, now, seq);
    }
}

/// A recovered packet is wanted no more.
pub proof fn law_recovered_is_not_pending(v: NackView, seq: u16)
    ensures
        !v.without(seq).pending.dom().contains(seq),
        forall|s: u16|
            s != seq ==> (#[trigger] v.without(seq).pending.dom().contains(s)
                <==> v.pending.dom().contains(s)),
{
}

/// The count of requests for a lost packet never passes `max_retries`: neither
/// handing requests out nor a packet that arrives takes one further.
pub proof fn law_retries_are_bounded(v: NackView, seq: u16, now: Instant, retry_delay: Duration)
    requires
        forall|s: u16| #[trigger]
            v.pending.dom().contains(s) ==> v.pending[s].nack_count <= v.max_retries,
    ensures
        forall|s: u16| #[trigger]
            v.after_nacks(now, retry_delay).pending.dom().contains(s) ==> v.after_nacks(
                now,
                retry_delay,
            ).pending[s].nack_count <= v.max_retries,
        forall|s: u16| #[trigger]
            v.after_packet(seq, now).0.pending.dom().contains(s) ==> v.after_packet(
                seq,
                now,
            ).0.pending[s].nack_count <= v.max_retries,
{
    if v.expected is Some {
        let gap = serial::diff(v.expected->0, seq);
        if 0 <= gap <= MAX_NACK_GAP {
            let ahead = NackView { expected: Some(serial::plus(seq, 1)), ..v };
            lemma_missing_bounded(ahead, v.expected->0, gap as nat, now);
        }
    }
}

proof fn lemma_missing_bounded(v: NackView, first: u16, n: nat, now: Instant)
    requires
        forall|s: u16| #[trigger]
            v.pending.dom().contains(s) ==> v.pending[s].nack_count <= v.max_retries,
    ensures
        v.missing(first, n, now).0.max_retries == v.max_retries,
        forall|s: u16| #[trigger]
            v.missing(first, n, now).0.pending.dom().contains(s) ==> v.missing(
                first,
                n,
                now,
            ).0.pending[s].nack_count <= v.max_retries,
    decreases n,
{
    if n > 0 {
        lemma_missing_bounded(v, first, (n - 1) as nat, now);
    }
}

/// A packet newly missed is asked for from the base delay on, unless it
/// arrives before.
pub proof fn law_new_gap_is_asked_for(
    v: NackView,
    seq: u16,
    now: Instant,
    k: int,
    later: Instant,
)
    requires
        0 <= k < v.after_packet(seq, now).1.len(),
        v.max_retries > 0,
    ensures
        v.after_packet(seq, now).0.asked_for(v.after_packet(seq, now).1[k], later) <==> later.nanos
            >= now.after(v.base_delay).nanos,
{
    let ahead = NackView { expected: Some(serial::plus(seq, 1)), ..v };
    let n = serial::diff(v.expected->0, seq) as nat;
    lemma_missing_are_new(ahead, v.expected->0, n, now, k);
    lemma_missing_are_fresh(ahead, v.expected->0, n, now, k);
    lemma_missing_keeps_settings(ahead, v.expected->0, n, now);
}

proof fn lemma_missing_keeps_settings(v: NackView, first: u16, n: nat, now: Instant)
    ensures
        v.missing(first, n, now).0.max_retries == v.max_retries,
        v.missing(first, n, now).0.base_delay == v.base_delay,
    decreases n,
{
    if n > 0 {
        lemma_missing_keeps_settings(v, first, (n - 1) as nat, now);
    }
}

pub proof fn lemma_missing_are_fresh(v: NackView, first: u16, n: nat, now: Instant, k: int)
    requires
        n <= MAX_NACK_GAP,
        0 <= k < v.missing(first, n, now).1.len(),
    ensures
        v.missing(first, n, now).0.pending[v.missing(first, n, now).1[k]] == (NackEntry {
            next_nack_at: now.after(v.base_delay),
            nack_count: 0,
        }),
    decreases n,
{
    if n > 0 {
        let (shorter, gaps) = v.missing(first, (n - 1) as nat, now);
        lemma_missing_keeps_settings(v, first, (n - 1) as nat, now);
        if k < gaps.len() {
            lemma_missing_are_fresh(v, first, (n - 1) as nat, now, k);
            lemma_missing_are_new(v, first, (n - 1) as nat, now, k);
            let i = choose|i: int| 0 <= i < n - 1 && gaps[k] == #[trigger] serial::plus(first, i);
            lemma_different_slots(first, i, n - 1);
            assert(v.missing(first, n, now).1[k] == gaps[k]);
        } else {
            assert(v.missing(first, n, now).1[k] == serial::plus(first, n - 1));
        }
    }
}

/// A lost packet stays wanted until it has been asked for `max_retries` times
/// and the last request has gone unanswered; then it is given up.
pub proof fn law_given_up_after_the_last_retry(
    v: NackView,
    seq: u16,
    now: Instant,
    retry_delay: Duration,
)
    requires
        v.pending.dom().contains(seq),
    ensures
        v.after_nacks(now, retry_delay).pending.dom().contains(seq) <==> !(v.pending[seq].due(now)
            && v.pending[seq].nack_count >= v.max_retries),
{
}

/// Storing a packet leaves every other one as it was, or gone; nothing else
/// comes in.
pub proof fn law_ring_invents_nothing(v: RetransmitView, seq: u16, data: Seq<u8>, other: u16)
    requires
        v.after_insert(seq, data).packets.dom().contains(other),
        other != seq,
    ensures
        v.packets.dom().contains(other),
        v.after_insert(seq, data).packets[other] == v.packets[other],
        v.after_insert(seq, data).capacity == v.capacity,
{
}

} // verus!
