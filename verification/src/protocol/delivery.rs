//! What a reorder buffer hands out over a whole run of arrivals and drains.

use vstd::prelude::*;

use crate::protocol::reorder;
use crate::protocol::reorder::{DrainItemView, ReorderView, WindowEntry};
use crate::serial;
use crate::time::Instant;

verus! {

/// What happens to a buffer.
pub enum BufferEvent {
    /// Packet `seq` arrives.
    Arrive { seq: u16, data: Seq<u8>, at: Instant },
    /// What is due is handed out.
    Drain { at: Instant },
}

/// An item that was handed out, and its place in the stream: how many
/// sequence numbers after that of the first packet.
pub struct Handed {
    pub place: int,
    pub item: DrainItemView,
}

/// A buffer and what it has handed out so far.
pub struct Run {
    pub buffer: ReorderView,
    /// The sequence number of the first packet.
    pub first: Option<u16>,
    /// The place of the next item to hand out.
    pub place: int,
    pub handed: Seq<Handed>,
}

impl Run {
    /// A run that starts with an empty buffer.
    pub open spec fn fresh(buffer: ReorderView) -> Run {
        Run { buffer, first: None, place: 0, handed: Seq::empty() }
    }

    /// The run after one more event.
    pub open spec fn step(self, event: BufferEvent) -> Run {
        match event {
            BufferEvent::Arrive { seq, data, at } => {
                let buffer = self.buffer.after_insert(seq, data, at).0;
                match self.buffer.base {
                    None => Run { buffer, first: Some(seq), ..self },
                    Some(base) => Run {
                        buffer,
                        place: self.place + serial::ahead(base, buffer.base->0),
                        ..self
                    },
                }
            },
            BufferEvent::Drain { at } => {
                let items = self.buffer.drained(at);
                Run {
                    buffer: self.buffer.after_drain(at),
                    place: self.place + items.len(),
                    handed: self.handed + Seq::new(
                        items.len(),
                        |i: int| Handed { place: self.place + i, item: items[i] },
                    ),
                    ..self
                }
            },
        }
    }

    /// The run after `events`.
    pub open spec fn after(self, events: Seq<BufferEvent>) -> Run
        decreases events.len(),
    {
        if events.len() == 0 {
            self
        } else {
            self.after(events.drop_last()).step(events.last())
        }
    }

    /// The place in the stream that packet `seq` is for, if it arrives now.
    pub open spec fn place_for(self, seq: u16) -> int {
        match self.buffer.base {
            None => 0,
            Some(base) => self.place + serial::diff(base, seq),
        }
    }

    /// Whether the window holds, for each place, the first packet that arrived
    /// for it in `events`, or a gap where there is none; and every packet
    /// handed out was the first for its place.
    spec fn holds_the_first(self, buffer: ReorderView, events: Seq<BufferEvent>) -> bool {
        &&& forall|j: int|
            #![trigger self.buffer.window[j]]
            0 <= j < self.buffer.window.len() ==> match first_for(buffer, events, self.place + j) {
                Some((data, arrival)) => self.buffer.window[j] == (WindowEntry::Filled {
                    data,
                    arrival,
                }),
                None => self.buffer.window[j] is Gap,
            }
        &&& forall|p: int|
            p >= self.place + self.buffer.window.len() ==> #[trigger] first_for(buffer, events, p)
                is None
        &&& forall|i: int|
            #![trigger self.handed[i]]
            0 <= i < self.handed.len() ==> (self.handed[i].item matches DrainItemView::Delivered {
                data,
                arrival,
                ..
            } ==> first_for(buffer, events, self.handed[i].place) == Some((data, arrival)))
    }

    /// Whether the packets that the run holds or has handed out are among
    /// those that arrived in `events`, each at its place, and the places of
    /// what was handed out ascend.
    spec fn sound(self, events: Seq<BufferEvent>) -> bool {
        &&& self.buffer.valid()
        &&& self.place >= 0
        &&& match self.first {
            None => self.buffer.base is None && self.handed.len() == 0 && self.place == 0,
            Some(first) => self.buffer.base == Some(serial::plus(first, self.place)),
        }
        &&& forall|i: int|
            0 <= i < self.handed.len() ==> 0 <= (#[trigger] self.handed[i]).place < self.place
        &&& forall|i: int, j: int|
            0 <= i < j < self.handed.len() ==> (#[trigger] self.handed[i]).place < (
            #[trigger] self.handed[j]).place
        &&& forall|i: int|
            0 <= i < self.handed.len() ==> came_in(
                (#[trigger] self.handed[i]).item,
                serial::plus(self.first->0, self.handed[i].place),
                events,
            )
        &&& forall|i: int|
            0 <= i < self.buffer.window.len() ==> came_in(
                (#[trigger] self.buffer.window[i]).drained(self.buffer.seq_at(i)),
                self.buffer.seq_at(i),
                events,
            )
    }
}

/// Whether `item` is a loss, or packet `seq` as it arrived in `events`.
pub open spec fn came_in(item: DrainItemView, seq: u16, events: Seq<BufferEvent>) -> bool {
    match item {
        DrainItemView::Lost => true,
        DrainItemView::Delivered { data, seq: s, arrival } => {
            &&& s == seq
            &&& events.contains(BufferEvent::Arrive { seq, data, at: arrival })
        },
    }
}

/// The payload and the arrival time of the first packet that arrives for
/// `place` in `events`.
pub open spec fn first_for(buffer: ReorderView, events: Seq<BufferEvent>, place: int) -> Option<
    (Seq<u8>, Instant),
>
    decreases events.len(),
{
    if events.len() == 0 {
        None
    } else {
        match (first_for(buffer, events.drop_last(), place), events.last()) {
            (None, BufferEvent::Arrive { seq, data, at }) => if Run::fresh(buffer).after(
                events.drop_last(),
            ).place_for(seq) == place {
                Some((data, at))
            } else {
                None
            },
            (found, _) => found,
        }
    }
}

/// Whether no packet in `events` lies further ahead than the ring reaches.
pub open spec fn ring_suffices(buffer: ReorderView, events: Seq<BufferEvent>) -> bool
    decreases events.len(),
{
    events.len() > 0 ==> {
        let before = Run::fresh(buffer).after(events.drop_last()).buffer;
        &&& ring_suffices(buffer, events.drop_last())
        &&& events.last() matches BufferEvent::Arrive { seq, .. } ==> before.base is Some
            ==> serial::diff(before.base->0, seq) < before.capacity
    }
}

/// What arrived stays among the events as they go on.
proof fn lemma_came_in_stays(
    item: DrainItemView,
    seq: u16,
    events: Seq<BufferEvent>,
    event: BufferEvent,
)
    requires
        came_in(item, seq, events),
    ensures
        came_in(item, seq, events.push(event)),
{
    if let DrainItemView::Delivered { data, seq: s, arrival } = item {
        let wanted = BufferEvent::Arrive { seq, data, at: arrival };
        let k = choose|k: int| 0 <= k < events.len() && events[k] == wanted;
        assert(events.push(event)[k] == wanted);
    }
}

proof fn lemma_plus_twice(s: u16, a: int, b: int)
    ensures
        serial::plus(serial::plus(s, a), b) == serial::plus(s, a + b),
        serial::plus(s, 0) == s,
{
}

/// A packet that arrives keeps the run sound.
proof fn lemma_arrival_is_sound(
    run: Run,
    events: Seq<BufferEvent>,
    seq: u16,
    data: Seq<u8>,
    at: Instant,
)
    requires
        run.sound(events),
    ensures
        run.step(BufferEvent::Arrive { seq, data, at }).sound(
            events.push(BufferEvent::Arrive { seq, data, at }),
        ),
{
    let event = BufferEvent::Arrive { seq, data, at };
    let more = events.push(event);
    let next = run.step(event);
    let v = run.buffer;
    reorder::law_window_stays_bounded(v, seq, data, at);
    assert(more[events.len() as int] == event);
    if v.base is Some {
        reorder::law_insert_moves_forward(v, seq, data, at);
        let moved = serial::ahead(v.base->0, next.buffer.base->0);
        serial::law_steps_and_distance(v.base->0, next.buffer.base->0, 0);
        lemma_plus_twice(run.first->0, run.place, moved);
    } else {
        lemma_plus_twice(seq, 0, 0);
    }
    assert forall|i: int| 0 <= i < next.handed.len() implies came_in(
        (#[trigger] next.handed[i]).item,
        serial::plus(next.first->0, next.handed[i].place),
        more,
    ) by {
        lemma_came_in_stays(
            run.handed[i].item,
            serial::plus(run.first->0, run.handed[i].place),
            events,
            event,
        );
    }
    assert forall|i: int| 0 <= i < next.buffer.window.len() implies came_in(
        (#[trigger] next.buffer.window[i]).drained(next.buffer.seq_at(i)),
        next.buffer.seq_at(i),
        more,
    ) by {
        if next.buffer.window[i] is Filled {
            reorder::law_insert_invents_nothing(v, seq, data, at, i);
            if !(next.buffer.seq_at(i) == seq && next.buffer.window[i] == (WindowEntry::Filled {
                data,
                arrival: at,
            })) {
                let k = choose|k: int|
                    0 <= k < v.window.len() && #[trigger] v.seq_at(k) == next.buffer.seq_at(i)
                        && v.window[k] == next.buffer.window[i];
                lemma_came_in_stays(
                    v.window[k].drained(v.seq_at(k)),
                    v.seq_at(k),
                    events,
                    event,
                );
            }
        }
    }
}

/// A drain keeps the run sound.
proof fn lemma_drain_is_sound(run: Run, events: Seq<BufferEvent>, at: Instant)
    requires
        run.sound(events),
    ensures
        run.step(BufferEvent::Drain { at }).sound(events.push(BufferEvent::Drain { at })),
{
    let event = BufferEvent::Drain { at };
    let more = events.push(event);
    let next = run.step(event);
    let v = run.buffer;
    let n = v.drained(at).len() as int;
    reorder::law_window_stays_bounded(v, 0, Seq::empty(), at);
    if n > 0 {
        reorder::law_nothing_leaves_early(v, at, n - 1);
    }
    if v.base is Some {
        lemma_plus_twice(run.first->0, run.place, n);
    }
    assert forall|i: int| 0 <= i < next.handed.len() implies came_in(
        (#[trigger] next.handed[i]).item,
        serial::plus(next.first->0, next.handed[i].place),
        more,
    ) by {
        if i < run.handed.len() {
            assert(next.handed[i] == run.handed[i]);
            lemma_came_in_stays(
                run.handed[i].item,
                serial::plus(run.first->0, run.handed[i].place),
                events,
                event,
            );
        } else {
            let k = i - run.handed.len();
            assert(v.window[k].drained(v.seq_at(k)) == next.handed[i].item);
            lemma_plus_twice(run.first->0, run.place, k);
            lemma_came_in_stays(v.window[k].drained(v.seq_at(k)), v.seq_at(k), events, event);
        }
    }
    assert forall|i: int, j: int| 0 <= i < j < next.handed.len() implies (
    #[trigger] next.handed[i]).place < (#[trigger] next.handed[j]).place by {
        if i < run.handed.len() {
            assert(next.handed[i] == run.handed[i]);
            if j < run.handed.len() {
                assert(next.handed[j] == run.handed[j]);
            }
        }
    }
    assert forall|i: int| 0 <= i < next.handed.len() implies 0 <= (
    #[trigger] next.handed[i]).place < next.place by {
        if i < run.handed.len() {
            assert(next.handed[i] == run.handed[i]);
        }
    }
    assert forall|i: int| 0 <= i < next.buffer.window.len() implies came_in(
        (#[trigger] next.buffer.window[i]).drained(next.buffer.seq_at(i)),
        next.buffer.seq_at(i),
        more,
    ) by {
        let k = i + n;
        lemma_plus_twice(v.base->0, n, i);
        assert(next.buffer.window[i] == v.window[k]);
        lemma_came_in_stays(v.window[k].drained(v.seq_at(k)), v.seq_at(k), events, event);
    }
}

proof fn lemma_run_is_sound(buffer: ReorderView, events: Seq<BufferEvent>)
    requires
        buffer.valid(),
        buffer.base is None,
    ensures
        Run::fresh(buffer).after(events).sound(events),
    decreases events.len(),
{
    if events.len() > 0 {
        let shorter = events.drop_last();
        let run = Run::fresh(buffer).after(shorter);
        lemma_run_is_sound(buffer, shorter);
        assert(shorter.push(events.last()) =~= events);
        match events.last() {
            BufferEvent::Arrive { seq, data, at } => lemma_arrival_is_sound(
                run,
                shorter,
                seq,
                data,
                at,
            ),
            BufferEvent::Drain { at } => lemma_drain_is_sound(run, shorter, at),
        }
    }
}

proof fn lemma_arrival_holds_the_first(
    buffer: ReorderView,
    events: Seq<BufferEvent>,
    seq: u16,
    data: Seq<u8>,
    at: Instant,
)
    requires
        Run::fresh(buffer).after(events).sound(events),
        Run::fresh(buffer).after(events).holds_the_first(buffer, events),
    ensures
        Run::fresh(buffer).after(events).step(
            BufferEvent::Arrive { seq, data, at },
        ).holds_the_first(buffer, events.push(BufferEvent::Arrive { seq, data, at })),
{
    let event = BufferEvent::Arrive { seq, data, at };
    let more = events.push(event);
    let run = Run::fresh(buffer).after(events);
    let next = run.step(event);
    let v = run.buffer;
    assert(more.drop_last() =~= events);
    let target = run.place_for(seq);
    assert forall|p: int| #[trigger]
        first_for(buffer, more, p) == match first_for(buffer, events, p) {
            Some(found) => Some(found),
            None => if p == target {
                Some((data, at))
            } else {
                None
            },
        } by {}
    if v.base is Some {
        assert(serial::ahead(v.base->0, v.base->0) == 0);
        if serial::diff(v.base->0, seq) >= 0 {
            reorder::law_insert_in_full(v, seq, data, at);
            let moved = serial::ahead(v.base->0, next.buffer.base->0);
            assert forall|j: int|
                #![trigger next.buffer.window[j]]
                0 <= j < next.buffer.window.len() implies match first_for(
                buffer,
                more,
                next.place + j,
            ) {
                Some((data, arrival)) => next.buffer.window[j] == (WindowEntry::Filled {
                    data,
                    arrival,
                }),
                None => next.buffer.window[j] is Gap,
            } by {
                let k = j + moved;
                assert(next.place + j == run.place + k);
                if k < v.window.len() {
                    assert(v.window[k] == v.window[k]);
                } else {
                    assert(first_for(buffer, events, run.place + k) is None);
                }
            }
        }
    }
}

proof fn lemma_drain_holds_the_first(buffer: ReorderView, events: Seq<BufferEvent>, at: Instant)
    requires
        Run::fresh(buffer).after(events).sound(events),
        Run::fresh(buffer).after(events).holds_the_first(buffer, events),
    ensures
        Run::fresh(buffer).after(events).step(BufferEvent::Drain { at }).holds_the_first(
            buffer,
            events.push(BufferEvent::Drain { at }),
        ),
{
    let event = BufferEvent::Drain { at };
    let more = events.push(event);
    let run = Run::fresh(buffer).after(events);
    let next = run.step(event);
    let v = run.buffer;
    let n = v.drained(at).len() as int;
    assert(more.drop_last() =~= events);
    assert forall|p: int| #[trigger]
        first_for(buffer, more, p) == first_for(buffer, events, p) by {}
    if n > 0 {
        reorder::law_nothing_leaves_early(v, at, n - 1);
    }
    assert forall|j: int|
        #![trigger next.buffer.window[j]]
        0 <= j < next.buffer.window.len() implies match first_for(buffer, more, next.place + j) {
        Some((data, arrival)) => next.buffer.window[j] == (WindowEntry::Filled { data, arrival }),
        None => next.buffer.window[j] is Gap,
    } by {
        assert(next.buffer.window[j] == v.window[j + n]);
        assert(next.place + j == run.place + (j + n));
    }
    assert forall|i: int|
        #![trigger next.handed[i]]
        0 <= i < next.handed.len() implies (next.handed[i].item matches DrainItemView::Delivered {
        data,
        arrival,
        ..
    } ==> first_for(buffer, more, next.handed[i].place) == Some((data, arrival))) by {
        if i < run.handed.len() {
            assert(next.handed[i] == run.handed[i]);
        } else {
            let k = i - run.handed.len();
            assert(v.window[k].drained(v.seq_at(k)) == next.handed[i].item);
        }
    }
}

proof fn lemma_run_holds_the_first(buffer: ReorderView, events: Seq<BufferEvent>)
    requires
        buffer.valid(),
        buffer.base is None,
    ensures
        Run::fresh(buffer).after(events).holds_the_first(buffer, events),
    decreases events.len(),
{
    if events.len() > 0 {
        let shorter = events.drop_last();
        lemma_run_is_sound(buffer, shorter);
        lemma_run_holds_the_first(buffer, shorter);
        assert(shorter.push(events.last()) =~= events);
        match events.last() {
            BufferEvent::Arrive { seq, data, at } => lemma_arrival_holds_the_first(
                buffer,
                shorter,
                seq,
                data,
                at,
            ),
            BufferEvent::Drain { at } => lemma_drain_holds_the_first(buffer, shorter, at),
        }
    }
}

/// Over any run, packets are handed out in strict sequence order: each lies
/// further on in the stream than the one before, so none comes out twice.
pub proof fn law_delivery_is_in_sequence_order(
    buffer: ReorderView,
    events: Seq<BufferEvent>,
    i: int,
    j: int,
)
    requires
        buffer.valid(),
        buffer.base is None,
        0 <= i < j < Run::fresh(buffer).after(events).handed.len(),
    ensures
        ({
            let run = Run::fresh(buffer).after(events);
            &&& 0 <= run.handed[i].place < run.handed[j].place
            &&& run.handed[i].item matches DrainItemView::Delivered { seq, .. } ==> seq
                == serial::plus(run.first->0, run.handed[i].place)
            &&& run.handed[j].item matches DrainItemView::Delivered { seq, .. } ==> seq
                == serial::plus(run.first->0, run.handed[j].place)
        }),
{
    lemma_run_is_sound(buffer, events);
}

/// Over any run, every packet handed out is one that came in, with its number,
/// its payload and its arrival time.
pub proof fn law_nothing_is_made_up(buffer: ReorderView, events: Seq<BufferEvent>, i: int)
    requires
        buffer.valid(),
        buffer.base is None,
        0 <= i < Run::fresh(buffer).after(events).handed.len(),
    ensures
        Run::fresh(buffer).after(events).handed[i].item matches DrainItemView::Delivered {
            data,
            seq,
            arrival,
        } ==> events.contains(BufferEvent::Arrive { seq, data, at: arrival }),
{
    lemma_run_is_sound(buffer, events);
}

/// Over any run, what is handed out for a place is the first packet that
/// arrived for it: a copy that comes later never takes its place.
pub proof fn law_the_first_copy_is_handed_out(
    buffer: ReorderView,
    events: Seq<BufferEvent>,
    i: int,
)
    requires
        buffer.valid(),
        buffer.base is None,
        0 <= i < Run::fresh(buffer).after(events).handed.len(),
    ensures
        ({
            let handed = Run::fresh(buffer).after(events).handed[i];
            handed.item matches DrainItemView::Delivered { data, arrival, .. } ==> first_for(
                buffer,
                events,
                handed.place,
            ) == Some((data, arrival))
        }),
{
    lemma_run_holds_the_first(buffer, events);
}

/// A drain, after any run, reports a place as lost only if no packet has
/// arrived for it, and hands the packet out if one has.
pub proof fn law_only_what_is_missing_is_lost(
    buffer: ReorderView,
    events: Seq<BufferEvent>,
    now: Instant,
    i: int,
)
    requires
        buffer.valid(),
        buffer.base is None,
        0 <= i < Run::fresh(buffer).after(events).buffer.drained(now).len(),
    ensures
        ({
            let run = Run::fresh(buffer).after(events);
            run.buffer.drained(now)[i] == match first_for(buffer, events, run.place + i) {
                Some((data, arrival)) => DrainItemView::Delivered {
                    data,
                    seq: serial::plus(run.first->0, run.place + i),
                    arrival,
                },
                None => DrainItemView::Lost,
            }
        }),
{
    let run = Run::fresh(buffer).after(events);
    lemma_run_is_sound(buffer, events);
    lemma_run_holds_the_first(buffer, events);
    reorder::law_nothing_leaves_early(run.buffer, now, i);
    assert(run.buffer.base is Some);
    lemma_plus_twice(run.first->0, run.place, i);
    assert(run.buffer.window[i].drained(run.buffer.seq_at(i)) == run.buffer.drained(now)[i]);
}

/// As long as no packet lies further ahead than the ring reaches, every
/// sequence number from the first on comes out exactly once and in its turn,
/// as a packet or as a loss.
pub proof fn law_every_number_comes_out_once(buffer: ReorderView, events: Seq<BufferEvent>)
    requires
        buffer.valid(),
        buffer.base is None,
        ring_suffices(buffer, events),
    ensures
        ({
            let run = Run::fresh(buffer).after(events);
            &&& run.handed.len() == run.place
            &&& forall|i: int|
                0 <= i < run.handed.len() ==> (#[trigger] run.handed[i]).place == i && (
                run.handed[i].item matches DrainItemView::Delivered { seq, .. } ==> seq
                    == serial::plus(run.first->0, i))
        }),
    decreases events.len(),
{
    lemma_run_is_sound(buffer, events);
    if events.len() > 0 {
        let run = Run::fresh(buffer).after(events.drop_last());
        let next = Run::fresh(buffer).after(events);
        lemma_run_is_sound(buffer, events.drop_last());
        law_every_number_comes_out_once(buffer, events.drop_last());
        match events.last() {
            BufferEvent::Arrive { seq, data, at } => {
                if run.buffer.base is Some {
                    assert(serial::ahead(run.buffer.base->0, run.buffer.base->0) == 0);
                    if serial::diff(run.buffer.base->0, seq) >= 0 {
                        reorder::law_insert_in_full(run.buffer, seq, data, at);
                    }
                }
            },
            BufferEvent::Drain { at } => {
                assert forall|i: int| 0 <= i < next.handed.len() implies (
                #[trigger] next.handed[i]).place == i by {
                    if i < run.handed.len() {
                        assert(next.handed[i] == run.handed[i]);
                    }
                }
            },
        }
    }
}

} // verus!
