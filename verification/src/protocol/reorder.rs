//! Receiver-side reorder and jitter buffer.
//!
//! Holds incoming RTP packets for `buffer_time` so that retransmissions can
//! fill gaps before delivery, and hands them out in sequence order. Gaps that
//! are not filled in time are reported as lost.
//!
//! The packets stand in a ring indexed by sequence number, so that an insert
//! costs one slot write plus one per gap it exposes.

use bytes::Bytes;
use vstd::prelude::*;

use crate::octets;
use crate::serial;
use crate::protocol::ring;
use crate::time::{Duration, Instant};

verus! {

/// Slots of a buffer made without an explicit capacity: about a second of
/// headroom at 8000 packets per second.
pub const DEFAULT_CAPACITY: usize = 8192;

/// The fewest slots a buffer has.
pub const MIN_CAPACITY: usize = 64;

#[derive(Debug)]
struct Slot {
    seq: u16,
    state: SlotState,
}

#[derive(Debug)]
enum SlotState {
    /// Nothing is buffered here.
    Empty,
    /// The packet is missing; a later one arrived at `first_noticed`.
    Gap { first_noticed: Instant },
    /// The packet arrived at `arrival` and awaits delivery.
    Filled { data: Bytes, arrival: Instant },
}

/// What `insert` did with a packet.
#[derive(Debug, Clone, Copy, Default, PartialEq, Eq, Structural)]
pub struct InsertOutcome {
    /// The packet lies below the next one to deliver: already delivered or given up.
    pub stale: bool,
    /// The packet is already buffered.
    pub duplicate: bool,
    /// The packet filled a gap.
    pub recovered: bool,
    /// How many sequence numbers the packet newly exposed as gaps.
    pub new_gaps: u32,
    /// How many of the oldest sequence numbers were given up to make room.
    pub overflow_flushed: u32,
}

/// Item produced by `drain_ready`.
#[derive(Debug)]
pub enum DrainItem {
    /// A packet's payload, its sequence number and when it arrived.
    Delivered { data: Bytes, seq: u16, arrival: Instant },
    /// The next packet did not arrive in time.
    Lost,
}

/// A [`DrainItem`] with its payload as a sequence of bytes.
pub enum DrainItemView {
    Delivered { data: Seq<u8>, seq: u16, arrival: Instant },
    Lost,
}

impl View for DrainItem {
    type V = DrainItemView;

    open spec fn view(&self) -> DrainItemView {
        match *self {
            DrainItem::Delivered { data, seq, arrival } => DrainItemView::Delivered {
                data: octets::content(data),
                seq,
                arrival,
            },
            DrainItem::Lost => DrainItemView::Lost,
        }
    }
}

/// The views of a run of items.
pub open spec fn drain_views(items: Seq<DrainItem>) -> Seq<DrainItemView> {
    items.map_values(|d: DrainItem| d@)
}

/// What the buffer knows of one sequence number in its window.
pub enum WindowEntry {
    Gap { first_noticed: Instant },
    Filled { data: Seq<u8>, arrival: Instant },
}

impl WindowEntry {
    /// When the hold time of the entry began.
    pub open spec fn held_since(self) -> Instant {
        match self {
            WindowEntry::Gap { first_noticed } => first_noticed,
            WindowEntry::Filled { arrival, .. } => arrival,
        }
    }

    /// Whether the entry's hold time is over.
    pub open spec fn due(self, now: Instant, hold: Duration) -> bool {
        now.duration_since(self.held_since()).nanos >= hold.nanos
    }

    /// What a drain hands out for the entry at sequence number `seq`.
    pub open spec fn drained(self, seq: u16) -> DrainItemView {
        match self {
            WindowEntry::Gap { .. } => DrainItemView::Lost,
            WindowEntry::Filled { data, arrival } => DrainItemView::Delivered {
                data,
                seq,
                arrival,
            },
        }
    }
}

/// How many entries at the front of `window` are due, up to the first that is not.
pub open spec fn due_prefix(window: Seq<WindowEntry>, now: Instant, hold: Duration) -> nat
    decreases window.len(),
{
    if window.len() == 0 || !window[0].due(now, hold) {
        0
    } else {
        1 + due_prefix(window.skip(1), now, hold)
    }
}

/// The buffer's contents: `window[i]` is the entry of the sequence number `i`
/// places after `base`, the next one to deliver.
#[verifier::ext_equal]
pub struct ReorderView {
    pub capacity: int,
    pub buffer_time: Duration,
    pub base: Option<u16>,
    pub window: Seq<WindowEntry>,
}

impl ReorderView {
    /// The bounds that every buffer keeps: the window fits the ring and half
    /// the sequence space, and is empty before the first packet.
    pub open spec fn valid(self) -> bool {
        &&& self.capacity >= 1
        &&& self.window.len() <= self.capacity
        &&& self.window.len() <= 32_768
        &&& self.base is None ==> self.window.len() == 0
    }

    /// The sequence number of `window[i]`.
    pub open spec fn seq_at(self, i: int) -> u16
        recommends
            self.base is Some,
    {
        serial::plus(self.base->0, i)
    }

    /// The contents after giving up the oldest sequence numbers, so that the
    /// one `offset` places after `base` has a slot: no more of them than
    /// needed. Where it lies more than a ring ahead of the last one, the
    /// window starts over with it.
    pub open spec fn with_room_for(self, offset: int) -> ReorderView {
        let excess = offset - (self.capacity - 1);
        if excess <= 0 {
            self
        } else if excess <= self.window.len() {
            ReorderView {
                base: Some(self.seq_at(excess)),
                window: self.window.skip(excess),
                ..self
            }
        } else {
            ReorderView { base: Some(self.seq_at(offset)), window: Seq::empty(), ..self }
        }
    }

    /// The contents and the outcome after storing packet `seq`, which has a
    /// slot, once `flushed` sequence numbers have been given up for it.
    pub open spec fn after_place(self, seq: u16, data: Seq<u8>, now: Instant, flushed: u32) -> (
        ReorderView,
        InsertOutcome,
    ) {
        let at = serial::ahead(self.base->0, seq);
        let plain = InsertOutcome {
            stale: false,
            duplicate: false,
            recovered: false,
            new_gaps: 0,
            overflow_flushed: flushed,
        };
        let filled = WindowEntry::Filled { data, arrival: now };
        if at >= self.window.len() {
            let gaps = (at - self.window.len()) as nat;
            let exposed = Seq::new(gaps, |i: int| WindowEntry::Gap { first_noticed: now });
            (
                ReorderView { window: (self.window + exposed).push(filled), ..self },
                InsertOutcome { new_gaps: gaps as u32, ..plain },
            )
        } else if self.window[at] is Gap {
            (
                ReorderView { window: self.window.update(at, filled), ..self },
                InsertOutcome { recovered: true, ..plain },
            )
        } else {
            (self, InsertOutcome { duplicate: true, ..plain })
        }
    }

    /// The contents and the outcome after packet `seq` arrives at `now`.
    pub open spec fn after_insert(self, seq: u16, data: Seq<u8>, now: Instant) -> (
        ReorderView,
        InsertOutcome,
    ) {
        match self.base {
            None => (
                ReorderView {
                    base: Some(seq),
                    window: seq![WindowEntry::Filled { data, arrival: now }],
                    ..self
                },
                InsertOutcome {
                    stale: false,
                    duplicate: false,
                    recovered: false,
                    new_gaps: 0,
                    overflow_flushed: 0,
                },
            ),
            Some(base) => {
                let offset = serial::diff(base, seq);
                if offset < 0 {
                    (
                        self,
                        InsertOutcome {
                            stale: true,
                            duplicate: false,
                            recovered: false,
                            new_gaps: 0,
                            overflow_flushed: 0,
                        },
                    )
                } else {
                    let room = self.with_room_for(offset);
                    let flushed = (self.window.len() - room.window.len()) as u32;
                    room.after_place(seq, data, now, flushed)
                }
            },
        }
    }

    /// Once there is room for it, the sequence number `offset` places on has a slot.
    proof fn lemma_room(self, offset: int)
        requires
            self.base is Some,
            self.capacity >= 1,
            0 <= offset < 32_768,
        ensures
            ({
                let room = self.with_room_for(offset);
                let at = serial::ahead(room.base->0, self.seq_at(offset));
                &&& room.base is Some
                &&& room.capacity == self.capacity
                &&& at < self.capacity
                &&& at < 32_768
            }),
    {
    }

    /// How many entries a drain at `now` hands out.
    pub open spec fn due_count(self, now: Instant) -> nat {
        due_prefix(self.window, now, self.buffer_time)
    }

    /// The contents after a drain at `now`.
    pub open spec fn after_drain(self, now: Instant) -> ReorderView {
        match self.base {
            None => self,
            Some(_) => ReorderView {
                base: Some(self.seq_at(self.due_count(now) as int)),
                window: self.window.skip(self.due_count(now) as int),
                ..self
            },
        }
    }

    /// What a drain at `now` hands out, in sequence order.
    pub open spec fn drained(self, now: Instant) -> Seq<DrainItemView> {
        Seq::new(self.due_count(now), |i: int| self.window[i].drained(self.seq_at(i)))
    }
}

/// Receiver-side reorder and jitter buffer.
#[derive(Debug)]
pub struct ReorderBuffer {
    slots: Vec<Slot>,
    capacity: usize,
    buffer_time: Duration,
    /// Next sequence number to deliver.
    base_seq: Option<u16>,
    /// Highest sequence number inserted so far.
    highest_seq: Option<u16>,
}

spec fn entry_of(state: SlotState) -> WindowEntry {
    match state {
        SlotState::Gap { first_noticed } => WindowEntry::Gap { first_noticed },
        SlotState::Filled { data, arrival } => WindowEntry::Filled { data: octets::content(data), arrival },
        SlotState::Empty => arbitrary(),
    }
}

/// Whether `slots` hold exactly the entries of `window` for the sequence
/// numbers from `base` on.
#[verifier::opaque]
spec fn slots_hold(slots: Seq<Slot>, base: u16, window: Seq<WindowEntry>) -> bool {
    let capacity = slots.len() as int;
    &&& ring::ring_fits(capacity)
    &&& window.len() <= capacity
    &&& window.len() <= 32_768
    &&& forall|i: int|
        #![trigger window[i]]
        0 <= i < window.len() ==> {
            let slot = slots[ring::slot_of(serial::plus(base, i), capacity)];
            &&& slot.seq == serial::plus(base, i)
            &&& !(slot.state is Empty)
            &&& entry_of(slot.state) == window[i]
        }
}

/// The entries that the slots hold for the sequence numbers from `base` to `highest`.
#[verifier::opaque]
spec fn held_window(slots: Seq<Slot>, base: u16, highest: u16) -> Seq<WindowEntry> {
    Seq::new(
        span(base, highest) as nat,
        |i: int| entry_of(slots[ring::slot_of(serial::plus(base, i), slots.len() as int)].state),
    )
}

/// How many sequence numbers there are from `base` to `highest`.
spec fn span(base: u16, highest: u16) -> int {
    serial::ahead(base, serial::plus(highest, 1))
}

/// Writing the slot of the entry after the last one extends the window.
proof fn lemma_hold_push(slots: Seq<Slot>, base: u16, window: Seq<WindowEntry>, slot: Slot)
    requires
        slots_hold(slots, base, window),
        window.len() < slots.len(),
        window.len() < 32_768,
        slot.seq == serial::plus(base, window.len() as int),
        !(slot.state is Empty),
    ensures
        slots_hold(
            slots.update(ring::slot_of(slot.seq, slots.len() as int), slot),
            base,
            window.push(entry_of(slot.state)),
        ),
{
    reveal(slots_hold);
    let capacity = slots.len() as int;
    let at = ring::slot_of(slot.seq, capacity);
    ring::lemma_slot_in_ring(slot.seq, capacity);
    let after = slots.update(at, slot);
    let wider = window.push(entry_of(slot.state));
    assert forall|i: int| #![trigger wider[i]] 0 <= i < wider.len() implies {
        let s = after[ring::slot_of(serial::plus(base, i), capacity)];
        &&& s.seq == serial::plus(base, i)
        &&& !(s.state is Empty)
        &&& entry_of(s.state) == wider[i]
    } by {
        if i < window.len() {
            assert(wider[i] == window[i]);
            ring::lemma_slot_in_ring(serial::plus(base, i), capacity);
            if ring::slot_of(serial::plus(base, i), capacity) == at {
                ring::lemma_slots_are_distinct(base, serial::plus(base, i), slot.seq, capacity);
            }
        }
    }
}

/// Rewriting the slot of an entry rewrites that entry alone.
proof fn lemma_hold_update(
    slots: Seq<Slot>,
    base: u16,
    window: Seq<WindowEntry>,
    k: int,
    slot: Slot,
)
    requires
        slots_hold(slots, base, window),
        0 <= k < window.len(),
        slot.seq == serial::plus(base, k),
        !(slot.state is Empty),
    ensures
        slots_hold(
            slots.update(ring::slot_of(slot.seq, slots.len() as int), slot),
            base,
            window.update(k, entry_of(slot.state)),
        ),
{
    reveal(slots_hold);
    let capacity = slots.len() as int;
    let at = ring::slot_of(slot.seq, capacity);
    ring::lemma_slot_in_ring(slot.seq, capacity);
    let after = slots.update(at, slot);
    let changed = window.update(k, entry_of(slot.state));
    assert forall|i: int| #![trigger changed[i]] 0 <= i < changed.len() implies {
        let s = after[ring::slot_of(serial::plus(base, i), capacity)];
        &&& s.seq == serial::plus(base, i)
        &&& !(s.state is Empty)
        &&& entry_of(s.state) == changed[i]
    } by {
        ring::lemma_slot_in_ring(serial::plus(base, i), capacity);
        if i != k {
            assert(changed[i] == window[i]);
            if ring::slot_of(serial::plus(base, i), capacity) == at {
                ring::lemma_slots_are_distinct(base, serial::plus(base, i), slot.seq, capacity);
            }
        }
    }
}

/// Clearing the slot of the first entry drops it from the window.
proof fn lemma_hold_pop(slots: Seq<Slot>, base: u16, window: Seq<WindowEntry>, slot: Slot)
    requires
        slots_hold(slots, base, window),
        window.len() > 0,
    ensures
        slots_hold(
            slots.update(ring::slot_of(base, slots.len() as int), slot),
            serial::plus(base, 1),
            window.skip(1),
        ),
{
    reveal(slots_hold);
    let capacity = slots.len() as int;
    let at = ring::slot_of(base, capacity);
    ring::lemma_slot_in_ring(base, capacity);
    let after = slots.update(at, slot);
    let rest = window.skip(1);
    let next = serial::plus(base, 1);
    assert forall|i: int| #![trigger rest[i]] 0 <= i < rest.len() implies {
        let s = after[ring::slot_of(serial::plus(next, i), capacity)];
        &&& s.seq == serial::plus(next, i)
        &&& !(s.state is Empty)
        &&& entry_of(s.state) == rest[i]
    } by {
        assert(rest[i] == window[i + 1]);
        assert(serial::plus(next, i) == serial::plus(base, i + 1));
        ring::lemma_slot_in_ring(serial::plus(base, i + 1), capacity);
        if ring::slot_of(serial::plus(base, i + 1), capacity) == at {
            ring::lemma_slots_are_distinct(base, serial::plus(base, i + 1), base, capacity);
        }
    }
}

impl View for ReorderBuffer {
    type V = ReorderView;

    closed spec fn view(&self) -> ReorderView {
        ReorderView {
            capacity: self.capacity as int,
            buffer_time: self.buffer_time,
            base: self.base_seq,
            window: match (self.base_seq, self.highest_seq) {
                (Some(base), Some(highest)) => held_window(self.slots@, base, highest),
                _ => Seq::empty(),
            },
        }
    }
}

impl ReorderBuffer {
    /// The buffer's invariant: every sequence number from the next one to
    /// deliver up to the highest one seen has a slot of its own.
    pub closed spec fn wf(&self) -> bool {
        &&& self.slots@.len() == self.capacity
        &&& ring::ring_fits(self.capacity as int)
        &&& self.capacity >= MIN_CAPACITY
        &&& match (self.base_seq, self.highest_seq) {
            (Some(base), Some(highest)) => slots_hold(self.slots@, base, self@.window),
            (None, None) => true,
            _ => false,
        }
    }

    /// Once the slots hold `window`, it is the buffer's window.
    proof fn lemma_window(&self, window: Seq<WindowEntry>)
        requires
            self.base_seq is Some,
            self.highest_seq is Some,
            self.slots@.len() == self.capacity,
            slots_hold(self.slots@, self.base_seq->0, window),
            span(self.base_seq->0, self.highest_seq->0) == window.len(),
        ensures
            self@.window == window,
    {
        reveal(slots_hold);
        reveal(held_window);
        assert(self@.window =~= window) by {
            assert forall|i: int| 0 <= i < window.len() implies self@.window[i] == window[i] by {}
        }
    }

    /// The window is no longer than the ring, and each of its entries stands
    /// in its slot.
    proof fn lemma_entry(&self, i: int)
        requires
            self.wf(),
            self.base_seq is Some,
        ensures
            self@.window.len() <= self.capacity,
            self@.window.len() <= 32_768,
            self@.window.len() == span(self.base_seq->0, self.highest_seq->0),
            0 <= i < self@.window.len() ==> {
                let slot = self.slots@[ring::slot_of(self@.seq_at(i), self.capacity as int)];
                &&& slot.seq == self@.seq_at(i)
                &&& !(slot.state is Empty)
                &&& entry_of(slot.state) == self@.window[i]
            },
    {
        reveal(slots_hold);
        reveal(held_window);
        if 0 <= i < self@.window.len() {
            assert(self@.window[i] == self@.window[i]);
        }
    }

    /// An empty window needs nothing of the slots.
    proof fn lemma_empty_window(&self)
        requires
            self.slots@.len() == self.capacity,
            ring::ring_fits(self.capacity as int),
            self.capacity >= MIN_CAPACITY,
            self.base_seq is Some,
            self.highest_seq == Some(serial::plus(self.base_seq->0, -1)),
        ensures
            self.wf(),
            self@.window == Seq::<WindowEntry>::empty(),
    {
        assert(slots_hold(self.slots@, self.base_seq->0, Seq::empty())) by {
            reveal(slots_hold);
        }
        self.lemma_window(Seq::empty());
    }

    /// A buffer with the default number of slots that holds packets for `buffer_time`.
    pub fn new(buffer_time: Duration) -> (b: ReorderBuffer)
        ensures
            b.wf(),
            b@ == (ReorderView {
                capacity: DEFAULT_CAPACITY as int,
                buffer_time,
                base: None,
                window: Seq::empty(),
            }),
    {
        let b = Self::with_capacity(buffer_time, DEFAULT_CAPACITY);
        proof {
            vstd::arithmetic::power2::lemma2_to64();
            assert(vstd::arithmetic::power2::pow2(13) == DEFAULT_CAPACITY);
            ring::law_rounding_is_unique(DEFAULT_CAPACITY as int, b@.capacity, DEFAULT_CAPACITY as int);
        }
        b
    }

    /// A buffer of at least `capacity` slots, rounded up to a power of two.
    pub fn with_capacity(buffer_time: Duration, capacity: usize) -> (b: ReorderBuffer)
        requires
            capacity <= usize::MAX / 2 + 1,
        ensures
            b.wf(),
            b@.buffer_time == buffer_time,
            b@.base is None,
            b@.window == Seq::<WindowEntry>::empty(),
            ring::is_power_of_two(b@.capacity),
            b@.capacity >= capacity,
            b@.capacity >= MIN_CAPACITY,
            b@.capacity == MIN_CAPACITY || b@.capacity / 2 < capacity,
    {
        let rounded: usize = ring::next_power_of_two(capacity);
        let capacity: usize = if rounded < MIN_CAPACITY {
            MIN_CAPACITY
        } else {
            rounded
        };
        proof {
            vstd::arithmetic::power2::lemma2_to64();
            assert(vstd::arithmetic::power2::pow2(6) == 64);
            assert(65_536int % 64 == 0);
        }
        let mut slots: Vec<Slot> = Vec::with_capacity(capacity);
        while slots.len() < capacity
            invariant
                slots@.len() <= capacity,
            decreases capacity - slots@.len(),
        {
            slots.push(Slot { seq: 0, state: SlotState::Empty });
        }
        ReorderBuffer { slots, capacity, buffer_time, base_seq: None, highest_seq: None }
    }

    /// Configured hold time.
    pub fn buffer_time(&self) -> (d: Duration)
        ensures
            d == self@.buffer_time,
    {
        self.buffer_time
    }

    /// Number of slots.
    pub fn capacity(&self) -> (c: usize)
        ensures
            c == self@.capacity,
    {
        self.capacity
    }

    /// Takes the slot of the next sequence number to deliver, and moves on to
    /// the one after it.
    fn pop_first(&mut self) -> (slot: Slot)
        requires
            old(self).wf(),
            old(self)@.base is Some,
            old(self)@.window.len() > 0,
        ensures
            final(self).wf(),
            final(self)@ == (ReorderView {
                base: Some(old(self)@.seq_at(1)),
                window: old(self)@.window.skip(1),
                ..old(self)@
            }),
            slot.seq == old(self)@.base->0,
            !(slot.state is Empty),
            entry_of(slot.state) == old(self)@.window[0],
    {
        let base: u16 = match self.base_seq {
            Some(b) => b,
            None => 0,
        };
        let ghost window = self@.window;
        let index: usize = base as usize % self.capacity;
        let mut slot = Slot { seq: 0, state: SlotState::Empty };
        proof {
            self.lemma_entry(0);
            assert(serial::plus(base, 0) == base);
            ring::lemma_slot_in_ring(base, self.capacity as int);
            lemma_hold_pop(self.slots@, base, window, slot);
        }
        core::mem::swap(&mut self.slots[index], &mut slot);
        self.base_seq = Some(base.wrapping_add(1));
        proof {
            self.lemma_window(window.skip(1));
        }
        slot
    }

    /// Gives up the first `count` sequence numbers of the window.
    fn flush_oldest(&mut self, count: u16)
        requires
            old(self).wf(),
            old(self)@.base is Some,
            count <= old(self)@.window.len(),
        ensures
            final(self).wf(),
            final(self)@ == (ReorderView {
                base: Some(old(self)@.seq_at(count as int)),
                window: old(self)@.window.skip(count as int),
                ..old(self)@
            }),
    {
        let mut done: u16 = 0;
        proof {
            assert(old(self)@.window.skip(0) =~= old(self)@.window);
        }
        while done < count
            invariant
                done <= count,
                count <= old(self)@.window.len(),
                old(self)@.base is Some,
                self.wf(),
                self@ == (ReorderView {
                    base: Some(old(self)@.seq_at(done as int)),
                    window: old(self)@.window.skip(done as int),
                    ..old(self)@
                }),
            decreases count - done,
        {
            let _slot = self.pop_first();
            proof {
                assert(old(self)@.window.skip(done as int).skip(1)
                    =~= old(self)@.window.skip(done + 1));
            }
            done = done + 1;
        }
    }

    /// Appends an entry after the last one of the window.
    fn push_last(&mut self, state: SlotState)
        requires
            old(self).wf(),
            old(self)@.base is Some,
            old(self)@.window.len() < old(self)@.capacity,
            old(self)@.window.len() < 32_768,
            !(state is Empty),
        ensures
            final(self).wf(),
            final(self)@ == (ReorderView {
                window: old(self)@.window.push(entry_of(state)),
                ..old(self)@
            }),
    {
        let highest: u16 = match self.highest_seq {
            Some(h) => h,
            None => 0,
        };
        let ghost window = self@.window;
        let seq: u16 = highest.wrapping_add(1);
        let index: usize = seq as usize % self.capacity;
        let slot = Slot { seq, state };
        proof {
            self.lemma_entry(0);
            assert(seq == serial::plus(self.base_seq->0, window.len() as int));
            ring::lemma_slot_in_ring(seq, self.capacity as int);
            lemma_hold_push(self.slots@, self.base_seq->0, window, slot);
        }
        self.slots.set(index, slot);
        self.highest_seq = Some(seq);
        proof {
            self.lemma_window(window.push(entry_of(slot.state)));
        }
    }

    /// How many sequence numbers the window holds.
    fn held(&self) -> (n: u16)
        requires
            self.wf(),
            self@.base is Some,
        ensures
            n == self@.window.len(),
            n <= 32_768,
            n <= self@.capacity,
    {
        proof {
            self.lemma_entry(0);
        }
        match (self.base_seq, self.highest_seq) {
            (Some(base), Some(highest)) => highest.wrapping_sub(base).wrapping_add(1),
            _ => 0,
        }
    }

    /// Empties the window, and makes `seq` the next sequence number to deliver.
    fn start_at(&mut self, seq: u16)
        requires
            old(self).wf(),
        ensures
            final(self).wf(),
            final(self)@ == (ReorderView {
                base: Some(seq),
                window: Seq::empty(),
                ..old(self)@
            }),
    {
        if self.base_seq.is_some() {
            let held: u16 = self.held();
            self.flush_oldest(held);
        }
        self.base_seq = Some(seq);
        self.highest_seq = Some(seq.wrapping_sub(1));
        proof {
            self.lemma_empty_window();
        }
    }

    /// Gives up the oldest sequence numbers so that the one `offset` places
    /// after the next to deliver has a slot. Returns how many it gave up.
    fn make_room(&mut self, offset: u16) -> (flushed: u32)
        requires
            old(self).wf(),
            old(self)@.base is Some,
            offset < 32_768,
        ensures
            final(self).wf(),
            final(self)@ == old(self)@.with_room_for(offset as int),
            flushed == old(self)@.window.len() - final(self)@.window.len(),
    {
        let held: u16 = self.held();
        if (offset as usize) < self.capacity {
            return 0;
        }
        let excess: usize = offset as usize - (self.capacity - 1);
        if excess <= held as usize {
            self.flush_oldest(excess as u16);
            return excess as u32;
        }
        let seq: u16 = match self.base_seq {
            Some(b) => b.wrapping_add(offset),
            None => 0,
        };
        self.start_at(seq);
        held as u32
    }

    /// Stores the packet `at` places after the next one to deliver, unless it
    /// is already there. Returns whether it filled a gap.
    fn fill_gap(&mut self, at: u16, data: Bytes, now: Instant) -> (filled: bool)
        requires
            old(self).wf(),
            old(self)@.base is Some,
            at < old(self)@.window.len(),
        ensures
            final(self).wf(),
            filled == (old(self)@.window[at as int] is Gap),
            final(self)@ == (if filled {
                ReorderView {
                    window: old(self)@.window.update(
                        at as int,
                        WindowEntry::Filled { data: octets::content(data), arrival: now },
                    ),
                    ..old(self)@
                }
            } else {
                old(self)@
            }),
    {
        let ghost window = self@.window;
        let seq: u16 = match self.base_seq {
            Some(b) => b.wrapping_add(at),
            None => 0,
        };
        let index: usize = seq as usize % self.capacity;
        proof {
            self.lemma_entry(at as int);
            assert(seq == self@.seq_at(at as int));
            ring::lemma_slot_in_ring(seq, self.capacity as int);
        }
        match &self.slots[index].state {
            SlotState::Gap { .. } => {},
            _ => {
                return false;
            },
        }
        let slot = Slot { seq, state: SlotState::Filled { data, arrival: now } };
        proof {
            lemma_hold_update(self.slots@, self.base_seq->0, window, at as int, slot);
        }
        self.slots.set(index, slot);
        proof {
            self.lemma_window(window.update(at as int, entry_of(slot.state)));
        }
        true
    }

    /// Appends `gaps` gaps noticed at `now` to the window.
    fn push_gaps(&mut self, gaps: u16, now: Instant)
        requires
            old(self).wf(),
            old(self)@.base is Some,
            old(self)@.window.len() + gaps <= old(self)@.capacity,
            old(self)@.window.len() + gaps <= 32_768,
        ensures
            final(self).wf(),
            final(self)@ == (ReorderView {
                window: old(self)@.window + Seq::new(
                    gaps as nat,
                    |i: int| WindowEntry::Gap { first_noticed: now },
                ),
                ..old(self)@
            }),
    {
        let mut marked: u16 = 0;
        let ghost gap = WindowEntry::Gap { first_noticed: now };
        proof {
            assert(self@.window =~= self@.window + Seq::new(0, |i: int| gap));
        }
        while marked < gaps
            invariant
                marked <= gaps,
                old(self)@.window.len() + gaps <= old(self)@.capacity,
                old(self)@.window.len() + gaps <= 32_768,
                self.wf(),
                old(self)@.base is Some,
                gap == (WindowEntry::Gap { first_noticed: now }),
                self@ == (ReorderView {
                    window: old(self)@.window + Seq::new(marked as nat, |i: int| gap),
                    ..old(self)@
                }),
            decreases gaps - marked,
        {
            self.push_last(SlotState::Gap { first_noticed: now });
            proof {
                assert((old(self)@.window + Seq::new(marked as nat, |i: int| gap)).push(gap)
                    =~= old(self)@.window + Seq::new((marked + 1) as nat, |i: int| gap));
            }
            marked = marked + 1;
        }
        proof {
            assert(Seq::new(gaps as nat, |i: int| gap) =~= Seq::new(
                gaps as nat,
                |i: int| WindowEntry::Gap { first_noticed: now },
            ));
        }
    }

    /// Stores a packet that has a slot, exposing gaps before it as needed.
    fn place(&mut self, seq: u16, data: Bytes, now: Instant, flushed: u32) -> (outcome:
        InsertOutcome)
        requires
            old(self).wf(),
            old(self)@.base is Some,
            serial::ahead(old(self)@.base->0, seq) < old(self)@.capacity,
            serial::ahead(old(self)@.base->0, seq) < 32_768,
        ensures
            final(self).wf(),
            final(self)@ == old(self)@.after_place(seq, octets::content(data), now, flushed).0,
            outcome == old(self)@.after_place(seq, octets::content(data), now, flushed).1,
    {
        let mut outcome = InsertOutcome {
            stale: false,
            duplicate: false,
            recovered: false,
            new_gaps: 0,
            overflow_flushed: flushed,
        };
        let at: u16 = match self.base_seq {
            Some(b) => seq.wrapping_sub(b),
            None => 0,
        };
        let held: u16 = self.held();
        if at < held {
            if self.fill_gap(at, data, now) {
                outcome.recovered = true;
            } else {
                outcome.duplicate = true;
            }
        } else {
            let gaps: u16 = at - held;
            self.push_gaps(gaps, now);
            self.push_last(SlotState::Filled { data, arrival: now });
            outcome.new_gaps = gaps as u32;
        }
        outcome
    }

    /// Takes in a packet, and says whether it was new, a duplicate, too late,
    /// or filled a gap.
    ///
    /// A packet farther ahead than the ring reaches pushes the oldest sequence
    /// numbers out, so that fresh media keeps flowing while the head waits for
    /// a retransmission.
    pub fn insert(&mut self, seq: u16, data: Bytes, now: Instant) -> (outcome: InsertOutcome)
        requires
            old(self).wf(),
        ensures
            final(self).wf(),
            final(self)@ == old(self)@.after_insert(seq, octets::content(data), now).0,
            outcome == old(self)@.after_insert(seq, octets::content(data), now).1,
    {
        match self.base_seq {
            None => {
                self.start_at(seq);
                let outcome = self.place(seq, data, now, 0);
                proof {
                    let gaps = Seq::new(0, |i: int| WindowEntry::Gap { first_noticed: now });
                    let filled = WindowEntry::Filled { data: octets::content(data), arrival: now };
                    assert((Seq::<WindowEntry>::empty() + gaps).push(filled) =~= seq![filled]);
                }
                outcome
            },
            Some(base) => {
                let offset: i32 = serial::signed_distance(base, seq);
                if offset < 0 {
                    return InsertOutcome {
                        stale: true,
                        duplicate: false,
                        recovered: false,
                        new_gaps: 0,
                        overflow_flushed: 0,
                    };
                }
                proof {
                    assert(seq == self@.seq_at(offset as int));
                }
                let flushed: u32 = self.make_room(offset as u16);
                proof {
                    old(self)@.lemma_room(offset as int);
                }
                self.place(seq, data, now, flushed)
            },
        }
    }

    /// Hands out, in sequence order, every packet and every loss whose hold
    /// time is over, up to the first entry still held.
    #[verifier::spinoff_prover]
    pub fn drain_ready(&mut self, now: Instant, out: &mut Vec<DrainItem>)
        requires
            old(self).wf(),
        ensures
            final(self).wf(),
            final(self)@ == old(self)@.after_drain(now),
            drain_views(final(out)@) == drain_views(old(out)@) + old(self)@.drained(now),
            final(out)@.len() >= old(out)@.len(),
            final(out)@.take(old(out)@.len() as int) == old(out)@,
    {
        let ghost before = self@;
        let ghost mut n: nat = 0;
        proof {
            if before.base is Some {
                assert(before.window.skip(0) =~= before.window);
            }
            assert(drain_views(out@) =~= drain_views(old(out)@) + Seq::new(
                0,
                |i: int| before.window[i].drained(before.seq_at(i)),
            ));
        }
        while self.has_due(now)
            invariant
                self.wf(),
                before == old(self)@,
                n <= before.window.len(),
                before.base is None ==> n == 0 && self@ == before,
                before.base is Some ==> self@ == (ReorderView {
                    base: Some(before.seq_at(n as int)),
                    window: before.window.skip(n as int),
                    ..before
                }),
                before.due_count(now) == n + due_prefix(
                    before.window.skip(n as int),
                    now,
                    before.buffer_time,
                ),
                drain_views(out@) == drain_views(old(out)@) + Seq::new(
                    n,
                    |i: int| before.window[i].drained(before.seq_at(i)),
                ),
                out@.len() >= old(out)@.len(),
                out@.take(old(out)@.len() as int) == old(out)@,
            decreases self@.window.len(),
        {
            let ghost head = self@.window[0];
            let ghost items = out@;
            let slot = self.pop_first();
            let item = match slot.state {
                SlotState::Filled { data, arrival } => DrainItem::Delivered {
                    data,
                    seq: slot.seq,
                    arrival,
                },
                _ => DrainItem::Lost,
            };
            out.push(item);
            proof {
                assert(before.window.skip(n as int).skip(1) =~= before.window.skip(n as int + 1));
                assert(head == before.window[n as int]);
                assert(item@ == head.drained(before.seq_at(n as int)));
                assert(drain_views(out@) =~= drain_views(items).push(item@));
                assert(drain_views(out@) =~= drain_views(old(out)@) + Seq::new(
                    n + 1,
                    |i: int| before.window[i].drained(before.seq_at(i)),
                ));
                assert(out@.take(old(out)@.len() as int) =~= items.take(old(out)@.len() as int));
                n = n + 1;
            }
        }
    }

    /// Whether the next sequence number to deliver is buffered and due.
    fn has_due(&self, now: Instant) -> (b: bool)
        requires
            self.wf(),
        ensures
            b == (self@.window.len() > 0 && self@.window[0].due(now, self@.buffer_time)),
    {
        match self.next_drain_from() {
            None => false,
            Some(since) => now.duration_since(since).nanos >= self.buffer_time.nanos,
        }
    }

    /// When the hold time of the next sequence number to deliver began.
    fn next_drain_from(&self) -> (t: Option<Instant>)
        requires
            self.wf(),
        ensures
            t == (if self@.window.len() > 0 {
                Some(self@.window[0].held_since())
            } else {
                None
            }),
    {
        match (self.base_seq, self.highest_seq) {
            (Some(base), Some(highest)) => {
                proof {
                    self.lemma_entry(0);
                }
                if highest.wrapping_sub(base).wrapping_add(1) == 0 {
                    return None;
                }
                let index: usize = base as usize % self.capacity;
                proof {
                    assert(serial::plus(base, 0) == base);
                    ring::lemma_slot_in_ring(base, self.capacity as int);
                }
                match &self.slots[index].state {
                    SlotState::Filled { arrival, .. } => Some(*arrival),
                    SlotState::Gap { first_noticed } => Some(*first_noticed),
                    SlotState::Empty => None,
                }
            },
            _ => None,
        }
    }

    /// The earliest time at which `drain_ready` will hand something out, if
    /// anything is buffered.
    pub fn next_drain_time(&self) -> (t: Option<Instant>)
        requires
            self.wf(),
        ensures
            t == (if self@.window.len() > 0 {
                Some(self@.window[0].held_since().after(self@.buffer_time))
            } else {
                None
            }),
    {
        match self.next_drain_from() {
            None => None,
            Some(since) => Some(since.after(self.buffer_time)),
        }
    }
}

/// A buffer's contents keep their bounds.
pub proof fn law_buffer_is_valid(b: ReorderBuffer)
    requires
        b.wf(),
    ensures
        b@.valid(),
{
    if b.base_seq is Some {
        b.lemma_entry(0);
    }
}

/// No packet and no drain breaks the bounds: the window never outgrows the ring.
pub proof fn law_window_stays_bounded(v: ReorderView, seq: u16, data: Seq<u8>, now: Instant)
    requires
        v.valid(),
    ensures
        v.after_insert(seq, data, now).0.valid(),
        v.after_drain(now).valid(),
{
    lemma_due_prefix(v.window, now, v.buffer_time);
    if v.base is Some {
        let offset = serial::diff(v.base->0, seq);
        if offset >= 0 {
            serial::law_steps_and_distance(v.base->0, seq, offset);
            v.lemma_room(offset);
        }
    }
}

/// A packet that is too late or already buffered changes nothing.
pub proof fn law_repeats_change_nothing(v: ReorderView, seq: u16, data: Seq<u8>, now: Instant)
    requires
        v.valid(),
        v.after_insert(seq, data, now).1.stale || v.after_insert(seq, data, now).1.duplicate,
    ensures
        v.after_insert(seq, data, now).0 == v,
        v.after_insert(seq, data, now).1.overflow_flushed == 0,
{
    let offset = serial::diff(v.base->0, seq);
    if offset >= 0 {
        serial::law_steps_and_distance(v.base->0, seq, offset);
        v.lemma_room(offset);
        if offset - (v.capacity - 1) > 0 {
            let room = v.with_room_for(offset);
            assert(serial::ahead(room.base->0, seq) >= room.window.len());
        }
    }
}

/// A packet that is neither too late nor already buffered is stored under its
/// sequence number.
pub proof fn law_insert_stores_the_packet(v: ReorderView, seq: u16, data: Seq<u8>, now: Instant)
    requires
        v.valid(),
        !v.after_insert(seq, data, now).1.stale,
        !v.after_insert(seq, data, now).1.duplicate,
    ensures
        ({
            let after = v.after_insert(seq, data, now).0;
            let at = serial::ahead(after.base->0, seq);
            &&& after.base is Some
            &&& 0 <= at < after.window.len()
            &&& after.window[at] == (WindowEntry::Filled { data, arrival: now })
        }),
{
    if v.base is Some {
        let room = v.with_room_for(serial::diff(v.base->0, seq));
        let flushed = (v.window.len() - room.window.len()) as u32;
        lemma_room_keeps(v, seq);
        lemma_place_stores(room, seq, data, now, flushed);
    }
}

/// What is buffered under other sequence numbers, and is not given up to make
/// room, stays as it was when a packet comes in.
pub proof fn law_insert_keeps_the_rest(
    v: ReorderView,
    seq: u16,
    data: Seq<u8>,
    now: Instant,
    i: int,
)
    requires
        v.valid(),
        v.after_insert(seq, data, now).1.overflow_flushed <= i < v.window.len(),
        v.seq_at(i) != seq,
    ensures
        ({
            let after = v.after_insert(seq, data, now).0;
            let j = serial::ahead(after.base->0, v.seq_at(i));
            &&& after.base is Some
            &&& 0 <= j < after.window.len()
            &&& after.window[j] == v.window[i]
        }),
{
    let outcome = v.after_insert(seq, data, now).1;
    if outcome.stale || outcome.duplicate {
        law_repeats_change_nothing(v, seq, data, now);
        lemma_own_place(v, i);
    } else {
        let room = v.with_room_for(serial::diff(v.base->0, seq));
        let flushed = (v.window.len() - room.window.len()) as u32;
        lemma_room_keeps(v, seq);
        lemma_place_stores(room, seq, data, now, flushed);
        lemma_index_in_room(v, seq, i);
        lemma_same_place(room.base->0, v.seq_at(i), seq);
    }
}

/// Every packet that is buffered after one came in is that packet, or was
/// buffered before under the same sequence number.
pub proof fn law_insert_invents_nothing(
    v: ReorderView,
    seq: u16,
    data: Seq<u8>,
    now: Instant,
    j: int,
)
    requires
        v.valid(),
        0 <= j < v.after_insert(seq, data, now).0.window.len(),
        v.after_insert(seq, data, now).0.window[j] is Filled,
    ensures
        ({
            let after = v.after_insert(seq, data, now).0;
            ||| after.seq_at(j) == seq && after.window[j] == (WindowEntry::Filled {
                data,
                arrival: now,
            })
            ||| v.base is Some && exists|i: int|
                0 <= i < v.window.len() && #[trigger] v.seq_at(i) == after.seq_at(j)
                    && v.window[i] == after.window[j]
        }),
{
    let (after, outcome) = v.after_insert(seq, data, now);
    if outcome.stale || outcome.duplicate {
        law_repeats_change_nothing(v, seq, data, now);
        assert(v.seq_at(j) == after.seq_at(j));
    } else if v.base is Some {
        let room = v.with_room_for(serial::diff(v.base->0, seq));
        let flushed = v.window.len() - room.window.len();
        let at = serial::ahead(room.base->0, seq);
        lemma_room_keeps(v, seq);
        lemma_place_stores(room, seq, data, now, flushed as u32);
        if j == at {
            serial::law_steps_and_distance(room.base->0, seq, 0);
        } else {
            lemma_index_in_room(v, seq, j + flushed);
            lemma_own_place(room, j);
            lemma_same_distance(room.base->0, v.seq_at(j + flushed), room.seq_at(j));
            assert(v.seq_at(j + flushed) == after.seq_at(j));
        }
    } else {
        assert(serial::plus(seq, 0) == seq);
    }
}

/// Sequence numbers at the same distance from a base are the same.
proof fn lemma_same_distance(base: u16, s: u16, t: u16)
    requires
        serial::ahead(base, s) == serial::ahead(base, t),
    ensures
        s == t,
{
}

/// An insert only ever moves the next sequence number to deliver forward, by
/// less than half the sequence space.
pub proof fn law_insert_moves_forward(v: ReorderView, seq: u16, data: Seq<u8>, now: Instant)
    requires
        v.valid(),
        v.base is Some,
    ensures
        v.after_insert(seq, data, now).0.base is Some,
        0 <= serial::ahead(v.base->0, v.after_insert(seq, data, now).0.base->0) < 32_768,
{
    let offset = serial::diff(v.base->0, seq);
    if offset >= 0 {
        let room = v.with_room_for(offset);
        lemma_room_keeps(v, seq);
        lemma_own_place(v, offset);
        let excess = offset - (v.capacity - 1);
        if 0 < excess {
            lemma_own_place(v, excess);
        }
    }
}

/// The window after a packet came in, entry by entry. The packet moves the
/// window on only where it lies further ahead than the ring reaches. What was
/// buffered and was not given up stands as it was, but that the packet fills
/// its own gap; what lies between the old window and the packet is a gap.
pub proof fn law_insert_in_full(v: ReorderView, seq: u16, data: Seq<u8>, now: Instant)
    requires
        v.valid(),
        v.base is Some,
        serial::diff(v.base->0, seq) >= 0,
    ensures
        ({
            let after = v.after_insert(seq, data, now).0;
            let offset = serial::diff(v.base->0, seq);
            let moved = serial::ahead(v.base->0, after.base->0);
            &&& 0 <= moved <= offset
            &&& moved == if offset < v.capacity {
                0
            } else if offset - v.capacity < v.window.len() {
                offset - v.capacity + 1
            } else {
                offset
            }
            &&& after.window.len() == if offset >= v.window.len() {
                offset + 1 - moved
            } else {
                v.window.len() - moved
            }
            &&& forall|j: int|
                #![trigger after.window[j]]
                0 <= j < after.window.len() ==> after.window[j] == if j + moved < v.window.len()
                    && (j + moved != offset || v.window[offset] is Filled) {
                    v.window[j + moved]
                } else if j + moved == offset {
                    WindowEntry::Filled { data, arrival: now }
                } else {
                    WindowEntry::Gap { first_noticed: now }
                }
        }),
{
    let offset = serial::diff(v.base->0, seq);
    let room = v.with_room_for(offset);
    let excess = offset - (v.capacity - 1);
    serial::law_steps_and_distance(v.base->0, seq, offset);
    lemma_room_keeps(v, seq);
    lemma_own_place(v, 0);
    if 0 < excess {
        lemma_own_place(v, excess);
        lemma_own_place(v, offset);
        if excess <= v.window.len() {
            serial::law_distance_is_difference(v.base->0, excess, offset);
        } else {
            assert(serial::ahead(seq, seq) == 0);
        }
    }
}

/// The sequence number of `window[i]` stands `i` places from the base.
proof fn lemma_own_place(v: ReorderView, i: int)
    requires
        0 <= i < 32_768,
    ensures
        serial::ahead(v.base->0, v.seq_at(i)) == i,
{
}

/// Different sequence numbers stand at different distances from a base.
proof fn lemma_same_place(base: u16, s: u16, t: u16)
    requires
        s != t,
    ensures
        serial::ahead(base, s) != serial::ahead(base, t),
{
}

/// What making room for packet `seq` keeps.
proof fn lemma_room_keeps(v: ReorderView, seq: u16)
    requires
        v.valid(),
        v.base is Some,
        serial::diff(v.base->0, seq) >= 0,
    ensures
        ({
            let room = v.with_room_for(serial::diff(v.base->0, seq));
            &&& room.valid()
            &&& room.base is Some
            &&& room.capacity == v.capacity
            &&& room.buffer_time == v.buffer_time
            &&& 0 <= serial::ahead(room.base->0, seq) < room.capacity
            &&& serial::ahead(room.base->0, seq) < 32_768
            &&& 0 <= v.window.len() - room.window.len() <= 32_768
        }),
{
    let offset = serial::diff(v.base->0, seq);
    serial::law_steps_and_distance(v.base->0, seq, offset);
    v.lemma_room(offset);
}

/// Where an entry that was not given up stands after making room for `seq`.
proof fn lemma_index_in_room(v: ReorderView, seq: u16, i: int)
    requires
        v.valid(),
        v.base is Some,
        serial::diff(v.base->0, seq) >= 0,
        v.window.len() - v.with_room_for(serial::diff(v.base->0, seq)).window.len() <= i,
        i < v.window.len(),
    ensures
        ({
            let room = v.with_room_for(serial::diff(v.base->0, seq));
            let j = serial::ahead(room.base->0, v.seq_at(i));
            &&& j == i - (v.window.len() - room.window.len())
            &&& 0 <= j < room.window.len()
            &&& room.window[j] == v.window[i]
        }),
{
    let offset = serial::diff(v.base->0, seq);
    let room = v.with_room_for(offset);
    let excess = offset - (v.capacity - 1);
    if 0 < excess < v.window.len() {
        assert(serial::ahead(room.base->0, v.seq_at(i)) == i - excess);
    } else if excess <= 0 {
        serial::law_steps_and_distance(v.base->0, v.base->0, i);
    }
}

/// Storing a packet writes its own entry, exposes gaps below it, and leaves
/// the rest.
proof fn lemma_place_stores(
    room: ReorderView,
    seq: u16,
    data: Seq<u8>,
    now: Instant,
    flushed: u32,
)
    requires
        room.valid(),
        room.base is Some,
        !room.after_place(seq, data, now, flushed).1.duplicate,
    ensures
        ({
            let after = room.after_place(seq, data, now, flushed).0;
            let at = serial::ahead(room.base->0, seq);
            &&& after.base == room.base
            &&& after.buffer_time == room.buffer_time
            &&& 0 <= at < after.window.len()
            &&& after.window.len() >= room.window.len()
            &&& after.window[at] == (WindowEntry::Filled { data, arrival: now })
            &&& forall|j: int|
                #![trigger after.window[j]]
                0 <= j < room.window.len() && j != at ==> after.window[j] == room.window[j]
            &&& forall|j: int|
                #![trigger after.window[j]]
                room.window.len() <= j < after.window.len() ==> after.window[j].held_since() == now
                    && (j != at ==> after.window[j] is Gap)
        }),
{
}

/// A packet that arrives while it is still waited for fills its gap, and
/// nothing else changes.
pub proof fn law_retransmit_fills_the_gap(v: ReorderView, i: int, data: Seq<u8>, now: Instant)
    requires
        v.valid(),
        0 <= i < v.window.len(),
        v.window[i] is Gap,
    ensures
        v.after_insert(v.seq_at(i), data, now).1.recovered,
        v.after_insert(v.seq_at(i), data, now).0 == (ReorderView {
            window: v.window.update(i, WindowEntry::Filled { data, arrival: now }),
            ..v
        }),
{
    lemma_own_place(v, i);
}

/// Packets come out in sequence order, each under its own number, with what
/// was buffered for it.
pub proof fn law_drain_is_in_order(v: ReorderView, now: Instant, i: int, j: int)
    requires
        v.valid(),
        0 <= i < j < v.drained(now).len(),
        v.drained(now)[i] is Delivered,
        v.drained(now)[j] is Delivered,
    ensures
        serial::diff(v.drained(now)[i]->seq, v.drained(now)[j]->seq) == j - i,
{
    lemma_due_prefix(v.window, now, v.buffer_time);
}

/// Nothing comes out before its hold time is over.
pub proof fn law_nothing_leaves_early(v: ReorderView, now: Instant, i: int)
    requires
        0 <= i < v.drained(now).len(),
    ensures
        i < v.window.len(),
        v.window[i].due(now, v.buffer_time),
{
    lemma_due_prefix(v.window, now, v.buffer_time);
}

/// What was handed out, as a packet or as a loss, is never handed out again:
/// a later copy of it is too late.
pub proof fn law_no_second_delivery(
    v: ReorderView,
    now: Instant,
    i: int,
    data: Seq<u8>,
    later: Instant,
)
    requires
        v.valid(),
        v.base is Some,
        0 <= i < v.drained(now).len(),
    ensures
        v.after_drain(now).after_insert(v.seq_at(i), data, later).1.stale,
{
    lemma_due_prefix(v.window, now, v.buffer_time);
    serial::law_distance_is_difference(v.base->0, v.due_count(now) as int, i);
}

/// A packet is handed out under its number, with its payload, as soon as its
/// own hold time is over, whatever is missing before it.
pub proof fn law_packet_comes_out_in_time(
    v: ReorderView,
    seq: u16,
    data: Seq<u8>,
    now: Instant,
    later: Instant,
)
    requires
        v.valid(),
        !v.after_insert(seq, data, now).1.stale,
        !v.after_insert(seq, data, now).1.duplicate,
        forall|i: int|
            0 <= i < v.window.len() ==> (#[trigger] v.window[i]).held_since().nanos <= now.nanos,
        later.nanos >= now.nanos + v.buffer_time.nanos,
    ensures
        v.after_insert(seq, data, now).0.drained(later).contains(
            DrainItemView::Delivered { data, seq, arrival: now },
        ),
{
    let after = v.after_insert(seq, data, now).0;
    let at = serial::ahead(after.base->0, seq);
    law_insert_stores_the_packet(v, seq, data, now);
    assert forall|i: int| 0 <= i < after.window.len() implies (#[trigger] after.window[i]).due(
        later,
        after.buffer_time,
    ) by {
        if v.base is Some {
            let room = v.with_room_for(serial::diff(v.base->0, seq));
            let flushed = v.window.len() - room.window.len();
            lemma_room_keeps(v, seq);
            lemma_place_stores(room, seq, data, now, flushed as u32);
            if i < room.window.len() && i != at {
                lemma_index_in_room(v, seq, i + flushed);
                assert(v.window[i + flushed].held_since().nanos <= now.nanos);
            }
        }
    }
    serial::law_steps_and_distance(after.base->0, seq, 0);
    lemma_all_due(after.window, later, after.buffer_time);
    assert(after.drained(later)[at] == DrainItemView::Delivered { data, seq, arrival: now });
}

/// The announced drain time is exact: before it nothing comes out, from then
/// on something does.
pub proof fn law_next_drain_time_is_exact(v: ReorderView, now: Instant)
    requires
        v.window.len() > 0,
        v.window[0].held_since().nanos + v.buffer_time.nanos <= u128::MAX,
        v.buffer_time.nanos > 0 || now.nanos >= v.window[0].held_since().nanos,
    ensures
        (v.due_count(now) > 0) == (now.nanos >= v.window[0].held_since().after(
            v.buffer_time,
        ).nanos),
{
}

proof fn lemma_due_prefix(window: Seq<WindowEntry>, now: Instant, hold: Duration)
    ensures
        due_prefix(window, now, hold) <= window.len(),
        forall|i: int|
            0 <= i < due_prefix(window, now, hold) ==> (#[trigger] window[i]).due(now, hold),
    decreases window.len(),
{
    if window.len() > 0 && window[0].due(now, hold) {
        let rest = window.skip(1);
        lemma_due_prefix(rest, now, hold);
        assert forall|i: int| 0 <= i < due_prefix(window, now, hold) implies (
        #[trigger] window[i]).due(now, hold) by {
            if i > 0 {
                assert(rest[i - 1] == window[i]);
            }
        }
    }
}

proof fn lemma_all_due(window: Seq<WindowEntry>, now: Instant, hold: Duration)
    requires
        forall|i: int| 0 <= i < window.len() ==> (#[trigger] window[i]).due(now, hold),
    ensures
        due_prefix(window, now, hold) == window.len(),
    decreases window.len(),
{
    if window.len() > 0 {
        let rest = window.skip(1);
        assert forall|i: int| 0 <= i < rest.len() implies (#[trigger] rest[i]).due(now, hold) by {
            assert(rest[i] == window[i + 1]);
        }
        lemma_all_due(rest, now, hold);
    }
}

/// What a packet does, by how far it lies ahead of the next one to deliver:
/// half the space or more is too late; within the window it fills a gap or is
/// there already; beyond it, each number skipped is a new gap. One that the
/// ring does not reach costs the oldest numbers their place, no more of them
/// than needed.
pub proof fn law_outcome_tells_what_happened(
    v: ReorderView,
    seq: u16,
    data: Seq<u8>,
    now: Instant,
    base: u16,
)
    requires
        v.valid(),
        v.base == Some(base),
    ensures
        ({
            let ahead = (seq - base) % 65_536;
            let held = v.window.len();
            let excess = ahead - v.capacity + 1;
            let o = v.after_insert(seq, data, now).1;
            &&& o.stale <==> ahead >= 32_768
            &&& o.duplicate <==> ahead < held && v.window[ahead] is Filled
            &&& o.recovered <==> ahead < held && v.window[ahead] is Gap
            &&& o.new_gaps == if held < ahead < 32_768 && excess <= held {
                ahead - held
            } else {
                0
            }
            &&& o.overflow_flushed == if ahead >= 32_768 || excess <= 0 {
                0
            } else if excess <= held {
                excess
            } else {
                held as int
            }
        }),
{
    let offset = serial::diff(base, seq);
    if offset >= 0 {
        serial::law_steps_and_distance(base, seq, offset);
        lemma_room_keeps(v, seq);
        lemma_own_place(v, 0);
        let excess = offset - (v.capacity - 1);
        if 0 < excess {
            lemma_own_place(v, excess);
            lemma_own_place(v, offset);
            if excess <= v.window.len() {
                serial::law_distance_is_difference(base, excess, offset);
            } else {
                assert(serial::ahead(seq, seq) == 0);
            }
        }
    }
}

/// The first packet starts the window.
pub proof fn law_first_packet_starts_the_window(
    v: ReorderView,
    seq: u16,
    data: Seq<u8>,
    now: Instant,
)
    requires
        v.base is None,
    ensures
        ({
            let (w, o) = v.after_insert(seq, data, now);
            &&& w.base == Some(seq)
            &&& w.window == seq![WindowEntry::Filled { data, arrival: now }]
            &&& w.capacity == v.capacity
            &&& w.buffer_time == v.buffer_time
            &&& !o.stale && !o.duplicate && !o.recovered
            &&& o.new_gaps == 0 && o.overflow_flushed == 0
        }),
{
}

/// A drain hands out, from the front, each number whose packet arrived, or
/// whose gap was noticed, at least the hold time ago, and stops at the first
/// that was not; the rest stays as it is.
pub proof fn law_drain_keeps_the_hold_time(v: ReorderView, now: Instant, base: u16, i: int)
    requires
        v.valid(),
        v.base == Some(base),
    ensures
        ({
            let n = v.drained(now).len() as int;
            let hold = v.buffer_time.nanos;
            let w = v.after_drain(now);
            &&& n <= v.window.len()
            &&& 0 <= i < n ==> match v.window[i] {
                WindowEntry::Filled { data, arrival } => v.drained(now)[i] == (
                DrainItemView::Delivered { data, seq: ((base + i) % 65_536) as u16, arrival }) && (
                now.nanos >= arrival.nanos + hold || hold == 0),
                WindowEntry::Gap { first_noticed } => v.drained(now)[i] is Lost && (now.nanos
                    >= first_noticed.nanos + hold || hold == 0),
            }
            &&& n < v.window.len() ==> match v.window[n] {
                WindowEntry::Filled { arrival, .. } => now.nanos < arrival.nanos + hold,
                WindowEntry::Gap { first_noticed } => now.nanos < first_noticed.nanos + hold,
            }
            &&& w.base == Some(((base + n) % 65_536) as u16)
            &&& w.window == v.window.skip(n)
            &&& w.capacity == v.capacity
            &&& w.buffer_time == v.buffer_time
        }),
{
    lemma_due_prefix(v.window, now, v.buffer_time);
    lemma_due_stops(v.window, now, v.buffer_time);
}

proof fn lemma_due_stops(window: Seq<WindowEntry>, now: Instant, hold: Duration)
    ensures
        due_prefix(window, now, hold) < window.len() ==> !window[due_prefix(
            window,
            now,
            hold,
        ) as int].due(now, hold),
    decreases window.len(),
{
    if window.len() > 0 && window[0].due(now, hold) {
        let rest = window.skip(1);
        let n = due_prefix(rest, now, hold) as int;
        lemma_due_stops(rest, now, hold);
        if n < rest.len() {
            assert(rest[n] == window[n + 1]);
        }
    }
}

} // verus!
