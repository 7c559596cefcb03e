//! Which lost packets are asked for over a whole run of a NACK scheduler.

use vstd::prelude::*;

use crate::protocol::nack_tracker;
use crate::protocol::nack_tracker::{NackEntry, NackView};
use crate::serial;
use crate::time::{Duration, Instant};

verus! {

/// What happens to a scheduler.
pub enum NackEvent {
    /// Packet `seq` arrives.
    Packet { seq: u16, at: Instant },
    /// Packet `seq` is marked as recovered.
    Recovered { seq: u16 },
    /// The requests that are due are handed out.
    Pump { at: Instant, retry_delay: Duration },
    /// The delay before the first request changes.
    BaseDelay { delay: Duration },
}

/// The contents after one more event.
pub open spec fn step(v: NackView, event: NackEvent) -> NackView {
    match event {
        NackEvent::Packet { seq, at } => v.after_packet(seq, at).0,
        NackEvent::Recovered { seq } => v.without(seq),
        NackEvent::Pump { at, retry_delay } => v.after_nacks(at, retry_delay),
        NackEvent::BaseDelay { delay } => NackView { base_delay: delay, ..v },
    }
}

/// The contents after `events`.
pub open spec fn after(v: NackView, events: Seq<NackEvent>) -> NackView
    decreases events.len(),
{
    if events.len() == 0 {
        v
    } else {
        step(after(v, events.drop_last()), events.last())
    }
}

/// Whether `event` reports packet `seq` as newly missed.
pub open spec fn reports(v: NackView, event: NackEvent, seq: u16) -> bool {
    event matches NackEvent::Packet { seq: s, at } && v.after_packet(s, at).1.contains(seq)
}

/// Whether `event` asks for packet `seq`.
pub open spec fn requests(v: NackView, event: NackEvent, seq: u16) -> bool {
    event matches NackEvent::Pump { at, .. } && v.asked_for(seq, at)
}

/// Whether packet `seq` comes in with `event`.
pub open spec fn brings(event: NackEvent, seq: u16) -> bool {
    match event {
        NackEvent::Packet { seq: s, .. } => s == seq,
        NackEvent::Recovered { seq: s } => s == seq,
        _ => false,
    }
}

/// How often packet `seq` has been asked for in `events` since it was last
/// reported as missed.
pub open spec fn requests_since(v: NackView, events: Seq<NackEvent>, seq: u16) -> nat
    decreases events.len(),
{
    if events.len() == 0 {
        0
    } else {
        let before = after(v, events.drop_last());
        if reports(before, events.last(), seq) {
            0
        } else if requests(before, events.last(), seq) {
            requests_since(v, events.drop_last(), seq) + 1
        } else {
            requests_since(v, events.drop_last(), seq)
        }
    }
}

/// Whether packet `seq` has been reported as missed in `events`, and has not
/// come in since.
pub open spec fn still_missed(v: NackView, events: Seq<NackEvent>, seq: u16) -> bool
    decreases events.len(),
{
    if events.len() == 0 {
        false
    } else if reports(after(v, events.drop_last()), events.last(), seq) {
        true
    } else {
        !brings(events.last(), seq) && still_missed(v, events.drop_last(), seq)
    }
}

/// Whether packet `seq`, each time that it arrives in `events` while it is
/// wanted, lies behind the next one expected: the stream has not gone half way
/// round the sequence numbers since it was missed.
pub open spec fn within_half_a_lap(v: NackView, events: Seq<NackEvent>, seq: u16) -> bool
    decreases events.len(),
{
    events.len() > 0 ==> {
        let before = after(v, events.drop_last());
        &&& within_half_a_lap(v, events.drop_last(), seq)
        &&& events.last() matches NackEvent::Packet { seq: s, .. } ==> s == seq
            && before.pending.dom().contains(seq) ==> before.expected is Some && serial::diff(
            before.expected->0,
            seq,
        ) < 0
    }
}

/// What is pending once a gap has been noticed was pending before, or is
/// reported and has not been asked for yet.
proof fn lemma_missing_is_accounted_for(v: NackView, first: u16, n: nat, now: Instant, seq: u16)
    ensures
        ({
            let (w, gaps) = v.missing(first, n, now);
            &&& w.max_retries == v.max_retries
            &&& w.pending.dom().contains(seq) ==> if gaps.contains(seq) {
                w.pending[seq].nack_count == 0
            } else {
                v.pending.dom().contains(seq) && w.pending[seq] == v.pending[seq]
            }
        }),
    decreases n,
{
    if n > 0 {
        let (w, gaps) = v.missing(first, (n - 1) as nat, now);
        let next = serial::plus(first, n - 1);
        lemma_missing_is_accounted_for(v, first, (n - 1) as nat, now, seq);
        let longer = gaps.push(next);
        assert(longer[gaps.len() as int] == next);
        if gaps.contains(seq) {
            let k = choose|k: int| 0 <= k < gaps.len() && gaps[k] == seq;
            assert(longer[k] == seq);
        }
        if longer.contains(seq) && seq != next {
            let k = choose|k: int| 0 <= k < longer.len() && longer[k] == seq;
            assert(gaps[k] == seq);
        }
    }
}

/// What is pending after a packet was pending before, or is reported and has
/// not been asked for yet.
proof fn lemma_packet_is_accounted_for(v: NackView, seq: u16, now: Instant, s: u16)
    ensures
        ({
            let (w, gaps) = v.after_packet(seq, now);
            &&& w.max_retries == v.max_retries
            &&& w.pending.dom().contains(s) ==> if gaps.contains(s) {
                w.pending[s].nack_count == 0
            } else {
                v.pending.dom().contains(s) && w.pending[s] == v.pending[s]
            }
        }),
{
    if v.expected is Some {
        let gap = serial::diff(v.expected->0, seq);
        if 0 <= gap {
            let ahead = NackView { expected: Some(serial::plus(seq, 1)), ..v };
            lemma_missing_is_accounted_for(ahead, v.expected->0, gap as nat, now, s);
        }
    }
}

/// The scheduler's own count of the requests for a packet is right.
proof fn lemma_count_is_right(v: NackView, events: Seq<NackEvent>, seq: u16)
    requires
        v.pending == Map::<u16, NackEntry>::empty(),
    ensures
        ({
            let w = after(v, events);
            &&& w.max_retries == v.max_retries
            &&& w.pending.dom().contains(seq) ==> w.pending[seq].nack_count == requests_since(
                v,
                events,
                seq,
            )
            &&& requests_since(v, events, seq) <= v.max_retries
        }),
    decreases events.len(),
{
    if events.len() > 0 {
        lemma_count_is_right(v, events.drop_last(), seq);
        let before = after(v, events.drop_last());
        if let NackEvent::Packet { seq: s, at } = events.last() {
            lemma_packet_is_accounted_for(before, s, at, seq);
        }
    }
}

/// From the time a packet is reported as missed, it is asked for at most
/// `max_retries` times, whatever happens, until it is reported again.
pub proof fn law_requests_are_bounded(v: NackView, events: Seq<NackEvent>, seq: u16)
    requires
        v.pending == Map::<u16, NackEntry>::empty(),
    ensures
        requests_since(v, events, seq) <= v.max_retries,
{
    lemma_count_is_right(v, events, seq);
}

proof fn lemma_pending_is_missed(v: NackView, events: Seq<NackEvent>, seq: u16)
    requires
        v.pending == Map::<u16, NackEntry>::empty(),
        within_half_a_lap(v, events, seq),
    ensures
        after(v, events).pending.dom().contains(seq) ==> still_missed(v, events, seq),
    decreases events.len(),
{
    if events.len() > 0 {
        lemma_pending_is_missed(v, events.drop_last(), seq);
        let before = after(v, events.drop_last());
        if let NackEvent::Packet { seq: s, at } = events.last() {
            lemma_packet_is_accounted_for(before, s, at, seq);
        }
    }
}

/// Only a packet that has been reported as missed, and has not come in since,
/// is ever asked for.
pub proof fn law_only_missed_packets_are_asked_for(
    v: NackView,
    events: Seq<NackEvent>,
    seq: u16,
    now: Instant,
)
    requires
        v.pending == Map::<u16, NackEntry>::empty(),
        within_half_a_lap(v, events, seq),
    ensures
        after(v, events).asked_for(seq, now) ==> still_missed(v, events, seq),
{
    lemma_pending_is_missed(v, events, seq);
}

/// Whether `event` is the arrival of packet `seq`.
pub open spec fn is_arrival(event: NackEvent, seq: u16) -> bool {
    event matches NackEvent::Packet { seq: s, .. } && s == seq
}

/// Whether packet `seq` arrives in `events`.
pub open spec fn arrived(events: Seq<NackEvent>, seq: u16) -> bool {
    exists|i: int| 0 <= i < events.len() && is_arrival(#[trigger] events[i], seq)
}

/// Whether the packets of `events` stay within half a lap: all lie within a
/// quarter of the sequence numbers before or after `origin`.
pub open spec fn near(events: Seq<NackEvent>, origin: u16) -> bool {
    forall|i: int|
        0 <= i < events.len() ==> (#[trigger] events[i] matches NackEvent::Packet { seq, .. } ==> -16_384
            <= serial::place(origin, seq) < 16_384)
}

/// The state of a run within half a lap: the next number expected is the one
/// after the highest that arrived, and what is pending lies below that and has
/// not arrived.
spec fn keeps_track(v: NackView, events: Seq<NackEvent>, origin: u16) -> bool {
    &&& v.expected is None ==> v.pending.dom() =~= Set::empty() && forall|s: u16|
        !#[trigger] arrived(events, s)
    &&& v.expected matches Some(e) ==> {
        &&& -16_384 < serial::place(origin, e) <= 16_384
        &&& arrived(events, serial::plus(e, -1))
        &&& forall|s: u16| #[trigger] arrived(events, s) ==> serial::place(origin, s) < serial::place(origin, e)
        &&& forall|s: u16| #[trigger]
            v.pending.dom().contains(s) ==> serial::place(origin, s) < serial::place(origin, e) && !arrived(
                events,
                s,
            )
    }
}

proof fn lemma_arrived_more(events: Seq<NackEvent>, event: NackEvent, s: u16)
    ensures
        arrived(events.push(event), s) <==> arrived(events, s) || is_arrival(event, s),
{
    let more = events.push(event);
    assert(more[events.len() as int] == event);
    if arrived(events, s) {
        let i = choose|i: int| 0 <= i < events.len() && is_arrival(#[trigger] events[i], s);
        assert(more[i] == events[i]);
    }
    if arrived(more, s) {
        let i = choose|i: int| 0 <= i < more.len() && is_arrival(#[trigger] more[i], s);
        if i < events.len() {
            assert(is_arrival(events[i], s));
        }
    }
}

/// The numbers newly missed are among those skipped.
proof fn lemma_gaps_are_skipped(v: NackView, first: u16, n: nat, now: Instant, s: u16)
    requires
        v.missing(first, n, now).1.contains(s),
    ensures
        exists|i: int| 0 <= i < n && s == #[trigger] serial::plus(first, i),
    decreases n,
{
    if n > 0 {
        let (w, gaps) = v.missing(first, (n - 1) as nat, now);
        let next = serial::plus(first, n - 1);
        let all = v.missing(first, n, now).1;
        let k = choose|k: int| 0 <= k < all.len() && all[k] == s;
        if k < gaps.len() {
            assert(gaps[k] == s);
            lemma_gaps_are_skipped(v, first, (n - 1) as nat, now, s);
            let i = choose|i: int| 0 <= i < n - 1 && s == #[trigger] serial::plus(first, i);
            assert(s == serial::plus(first, i));
        } else {
            assert(s == next);
        }
    }
}

/// Numbers counted from one that is near keep their distance.
proof fn lemma_places(origin: u16, e: u16, seq: u16, i: int)
    requires
        -16_384 < serial::place(origin, e) <= 16_384,
        -16_384 <= serial::place(origin, seq) < 16_384,
    ensures
        serial::diff(e, seq) == serial::place(origin, seq) - serial::place(origin, e),
        serial::place(origin, serial::plus(seq, 1)) == serial::place(origin, seq) + 1,
        serial::plus(serial::plus(seq, 1), -1) == seq,
        0 <= i < 40_000 && serial::place(origin, e) + i < 32_768 ==> serial::place(origin, serial::plus(e, i))
            == serial::place(origin, e) + i,
{
    let p = serial::place(origin, e);
    let q = serial::place(origin, seq);
    serial::lemma_place_leads(origin, e);
    serial::lemma_place_leads(origin, seq);
    serial::lemma_mod_steps(origin + p, e, q - p);
    serial::lemma_place_is(e, seq, q - p);
    serial::lemma_mod_steps(origin + q, seq, 1);
    serial::lemma_place_is(origin, serial::plus(seq, 1), q + 1);
    if 0 <= i < 40_000 && p + i < 32_768 {
        serial::lemma_mod_steps(origin + p, e, i);
        serial::lemma_place_is(origin, serial::plus(e, i), p + i);
    }
}

proof fn lemma_packet_keeps_track(
    v: NackView,
    events: Seq<NackEvent>,
    origin: u16,
    seq: u16,
    at: Instant,
)
    requires
        keeps_track(v, events, origin),
        -16_384 <= serial::place(origin, seq) < 16_384,
    ensures
        keeps_track(
            v.after_packet(seq, at).0,
            events.push(NackEvent::Packet { seq, at }),
            origin,
        ),
{
    let event = NackEvent::Packet { seq, at };
    let more = events.push(event);
    let (w, gaps) = v.after_packet(seq, at);
    assert forall|s: u16| #[trigger] arrived(more, s) <==> arrived(events, s) || s == seq by {
        lemma_arrived_more(events, event, s);
    }
    match v.expected {
        None => {
            lemma_places(origin, origin, seq, 0);
        },
        Some(e) => {
            lemma_places(origin, e, seq, 0);
            let gap = serial::diff(e, seq);
            if gap >= 0 {
                let ahead = NackView { expected: Some(serial::plus(seq, 1)), ..v };
                if gap <= 1_000 {
                    lemma_missing_keeps_expected(ahead, e, gap as nat, at);
                }
                assert forall|s: u16| #[trigger] w.pending.dom().contains(s) implies serial::place(
                    origin,
                    s,
                ) < serial::place(origin, serial::plus(seq, 1)) && !arrived(more, s) by {
                    if gap <= 1_000 {
                        lemma_missing_is_accounted_for(ahead, e, gap as nat, at, s);
                        if gaps.contains(s) {
                            lemma_gaps_are_skipped(ahead, e, gap as nat, at, s);
                            let i = choose|i: int|
                                0 <= i < gap && s == #[trigger] serial::plus(e, i);
                            lemma_places(origin, e, seq, i);
                        }
                    }
                }
            }
        },
    }
}

proof fn lemma_missing_keeps_expected(v: NackView, first: u16, n: nat, now: Instant)
    ensures
        v.missing(first, n, now).0.expected == v.expected,
    decreases n,
{
    if n > 0 {
        lemma_missing_keeps_expected(v, first, (n - 1) as nat, now);
    }
}

proof fn lemma_run_keeps_track(v: NackView, events: Seq<NackEvent>, origin: u16)
    requires
        v.expected is None,
        v.pending == Map::<u16, NackEntry>::empty(),
        near(events, origin),
    ensures
        keeps_track(after(v, events), events, origin),
    decreases events.len(),
{
    if events.len() > 0 {
        let shorter = events.drop_last();
        let before = after(v, shorter);
        let event = events.last();
        assert(near(shorter, origin)) by {
            assert forall|i: int| 0 <= i < shorter.len() implies (
            #[trigger] shorter[i] matches NackEvent::Packet { seq, .. } ==> -16_384 <= serial::place(
                origin,
                seq,
            ) < 16_384) by {
                assert(shorter[i] == events[i]);
            }
        }
        lemma_run_keeps_track(v, shorter, origin);
        assert(shorter.push(event) =~= events);
        assert(event == events[events.len() - 1]);
        match event {
            NackEvent::Packet { seq, at } => lemma_packet_keeps_track(
                before,
                shorter,
                origin,
                seq,
                at,
            ),
            _ => {
                assert forall|s: u16| #[trigger] arrived(events, s) <==> arrived(shorter, s) by {
                    lemma_arrived_more(shorter, event, s);
                }
            },
        }
    }
}

/// A packet that has arrived is wanted no more: as long as the stream stays
/// within half a lap, it is neither pending nor asked for, whatever came
/// before or after it.
pub proof fn law_received_packets_are_not_asked_for(
    v: NackView,
    events: Seq<NackEvent>,
    origin: u16,
    seq: u16,
    now: Instant,
)
    requires
        v.expected is None,
        v.pending == Map::<u16, NackEntry>::empty(),
        near(events, origin),
        arrived(events, seq),
    ensures
        !after(v, events).pending.dom().contains(seq),
        !after(v, events).asked_for(seq, now),
{
    lemma_run_keeps_track(v, events, origin);
}

/// A packet reports only numbers between the highest that has arrived and its
/// own: none that has arrived, however late the last one was.
pub proof fn law_reports_lie_beyond_the_highest(
    v: NackView,
    events: Seq<NackEvent>,
    origin: u16,
    seq: u16,
    at: Instant,
    missed: u16,
    other: u16,
)
    requires
        v.expected is None,
        v.pending == Map::<u16, NackEntry>::empty(),
        near(events, origin),
        -16_384 <= serial::place(origin, seq) < 16_384,
        reports(after(v, events), NackEvent::Packet { seq, at }, missed),
        arrived(events, other),
    ensures
        !arrived(events, missed),
        serial::place(origin, other) < serial::place(origin, missed) < serial::place(origin, seq),
{
    let w = after(v, events);
    lemma_run_keeps_track(v, events, origin);
    let e = w.expected->0;
    lemma_places(origin, e, seq, 0);
    let gap = serial::diff(e, seq);
    let ahead = NackView { expected: Some(serial::plus(seq, 1)), ..w };
    lemma_gaps_are_skipped(ahead, e, gap as nat, at, missed);
    let i = choose|i: int| 0 <= i < gap && missed == #[trigger] serial::plus(e, i);
    lemma_places(origin, e, seq, i);
}

/// The next number expected is always the one after the highest that arrived.
pub proof fn law_expected_follows_the_highest(
    v: NackView,
    events: Seq<NackEvent>,
    origin: u16,
    seq: u16,
)
    requires
        v.expected is None,
        v.pending == Map::<u16, NackEntry>::empty(),
        near(events, origin),
        arrived(events, seq),
    ensures
        after(v, events).expected matches Some(e) && serial::place(origin, seq) < serial::place(origin, e)
            && arrived(events, ((e - 1) % 65_536) as u16),
{
    lemma_run_keeps_track(v, events, origin);
}

/// A packet that lies behind what is expected next leaves that as it is, and
/// takes only itself off the list; one that does not is followed by its
/// successor.
pub proof fn law_expected_never_moves_back(v: NackView, seq: u16, now: Instant, expected: u16)
    requires
        v.expected == Some(expected),
    ensures
        ({
            let (w, gaps) = v.after_packet(seq, now);
            &&& serial::place(expected, seq) < 0 ==> w.expected == Some(expected) && gaps.len() == 0
                && w.pending == v.pending.remove(seq)
            &&& serial::place(expected, seq) >= 0 ==> w.expected == Some(((seq + 1) % 65_536) as u16)
        }),
{
    if 0 <= serial::place(expected, seq) <= 1_000 {
        let ahead = NackView { expected: Some(serial::plus(seq, 1)), ..v };
        lemma_missing_keeps_expected(ahead, expected, serial::diff(expected, seq) as nat, now);
    }
}

/// Of a jump over at most 1000 packets, each one skipped is wanted afterwards:
/// it is reported, and asked for from the base delay on, unless it was wanted
/// already.
pub proof fn law_every_skipped_packet_is_wanted(
    v: NackView,
    seq: u16,
    now: Instant,
    expected: u16,
    i: int,
)
    requires
        v.expected == Some(expected),
        0 <= i < serial::place(expected, seq) <= 1_000,
    ensures
        ({
            let (w, gaps) = v.after_packet(seq, now);
            let missed = ((expected + i) % 65_536) as u16;
            &&& w.pending.dom().contains(missed)
            &&& !v.pending.dom().contains(missed) ==> gaps.contains(missed)
                && w.pending[missed].nack_count == 0 && w.pending[missed].next_nack_at.nanos
                == now.after(v.base_delay).nanos
        }),
{
    let ahead = NackView { expected: Some(serial::plus(seq, 1)), ..v };
    let n = serial::diff(expected, seq) as nat;
    assert(n == serial::place(expected, seq));
    nack_tracker::law_gap_is_pending(v, seq, now, i);
    let missed = serial::plus(expected, i);
    let (w, gaps) = v.after_packet(seq, now);
    if !v.pending.dom().contains(missed) {
        lemma_missing_is_accounted_for(ahead, expected, n, now, missed);
        let k = choose|k: int| 0 <= k < gaps.len() && gaps[k] == missed;
        nack_tracker::lemma_missing_are_fresh(ahead, expected, n, now, k);
    }
}

/// A longer jump is a new start: nothing that it skips is asked for, and what
/// is wanted stays so.
pub proof fn law_long_jump_asks_for_nothing(v: NackView, seq: u16, now: Instant, expected: u16)
    requires
        v.expected == Some(expected),
        serial::place(expected, seq) > 1_000,
    ensures
        v.after_packet(seq, now).1.len() == 0,
        v.after_packet(seq, now).0.pending == v.pending,
{
}

/// A packet leaves the requests for others as they are, but for those that
/// give way to a number 4096 further on.
pub proof fn law_other_requests_are_left_alone(
    v: NackView,
    seq: u16,
    now: Instant,
    expected: u16,
    wanted: u16,
)
    requires
        v.expected == Some(expected),
        v.pending.dom().contains(wanted),
        wanted != seq,
        forall|i: int|
            #![trigger serial::plus(expected, i)]
            0 <= i < serial::place(expected, seq) <= 1_000 ==> (expected + i) % 4_096 != wanted % 4_096,
    ensures
        v.after_packet(seq, now).0.pending.dom().contains(wanted),
        v.after_packet(seq, now).0.pending[wanted] == v.pending[wanted],
{
    let n = serial::place(expected, seq);
    if 0 <= n <= 1_000 {
        let ahead = NackView { expected: Some(serial::plus(seq, 1)), ..v };
        assert forall|i: int| 0 <= i < n implies !nack_tracker::same_slot(
            #[trigger] serial::plus(expected, i),
            wanted,
        ) by {
            lemma_slot_of_step(expected, i);
        }
        nack_tracker::lemma_slot_survives(ahead, expected, n as nat, now, wanted);
        lemma_missing_is_accounted_for(ahead, expected, n as nat, now, wanted);
        let gaps = ahead.missing(expected, n as nat, now).1;
        if gaps.contains(wanted) {
            lemma_gaps_are_skipped(ahead, expected, n as nat, now, wanted);
            let i = choose|i: int| 0 <= i < n && wanted == #[trigger] serial::plus(expected, i);
            lemma_slot_of_step(expected, i);
        }
    }
}

proof fn lemma_slot_of_step(first: u16, i: int)
    ensures
        serial::plus(first, i) % 4_096 == (first + i) % 4_096,
{
}

/// The scheduler after requests have been handed out at `times`, one after
/// another.
pub open spec fn pumped(v: NackView, times: Seq<Instant>, retry_delay: Duration) -> NackView
    decreases times.len(),
{
    if times.len() == 0 {
        v
    } else {
        pumped(v, times.drop_last(), retry_delay).after_nacks(times.last(), retry_delay)
    }
}

proof fn lemma_pumped(
    v: NackView,
    times: Seq<Instant>,
    retry_delay: Duration,
    seq: u16,
)
    requires
        v.pending.dom().contains(seq),
        v.pending[seq].nack_count == 0,
        times.len() > 0 ==> times[0].nanos >= v.pending[seq].next_nack_at.nanos,
        forall|i: int|
            #![trigger times[i]]
            0 < i < times.len() ==> times[i].nanos >= times[i - 1].nanos + retry_delay.nanos,
    ensures
        ({
            let w = pumped(v, times, retry_delay);
            &&& w.max_retries == v.max_retries
            &&& times.len() <= v.max_retries ==> {
                &&& w.pending.dom().contains(seq)
                &&& w.pending[seq].nack_count == times.len()
                &&& times.len() == 0 ==> w.pending[seq] == v.pending[seq]
                &&& times.len() > 0 ==> w.pending[seq].next_nack_at == times.last().after(
                    retry_delay,
                )
            }
            &&& times.len() > v.max_retries ==> !w.pending.dom().contains(seq)
        }),
    decreases times.len(),
{
    if times.len() > 0 {
        let shorter = times.drop_last();
        assert forall|i: int| #![trigger shorter[i]] 0 < i < shorter.len() implies shorter[i].nanos
            >= shorter[i - 1].nanos + retry_delay.nanos by {
            assert(shorter[i] == times[i] && shorter[i - 1] == times[i - 1]);
        }
        if shorter.len() > 0 {
            assert(shorter[0] == times[0]);
            assert(times[times.len() - 1].nanos >= times[times.len() - 2].nanos
                + retry_delay.nanos);
            assert(shorter.last() == times[times.len() - 2]);
        }
        lemma_pumped(v, shorter, retry_delay, seq);
    }
}

/// A missed packet that does not come is asked for exactly `max_retries`
/// times, once each time that the retry delay has passed; then it is given up.
pub proof fn law_requests_are_repeated(
    v: NackView,
    times: Seq<Instant>,
    retry_delay: Duration,
    seq: u16,
    now: Instant,
)
    requires
        v.pending.dom().contains(seq),
        v.pending[seq].nack_count == 0,
        times.len() > 0 ==> times[0].nanos >= v.pending[seq].next_nack_at.nanos,
        forall|i: int|
            #![trigger times[i]]
            0 < i < times.len() ==> times[i].nanos >= times[i - 1].nanos + retry_delay.nanos,
    ensures
        ({
            let w = pumped(v, times, retry_delay);
            &&& times.len() == 0 ==> (w.asked_for(seq, now) <==> v.max_retries > 0 && now.nanos
                >= v.pending[seq].next_nack_at.nanos)
            &&& times.len() > 0 ==> (w.asked_for(seq, now) <==> times.len() < v.max_retries
                && now.nanos >= times.last().after(retry_delay).nanos)
            &&& times.len() > v.max_retries ==> !w.pending.dom().contains(seq)
        }),
{
    lemma_pumped(v, times, retry_delay, seq);
}

/// Handing out requests leaves those that are not due as they are.
pub proof fn law_requests_wait_for_their_time(
    v: NackView,
    now: Instant,
    retry_delay: Duration,
    seq: u16,
)
    requires
        v.pending.dom().contains(seq),
        now.nanos < v.pending[seq].next_nack_at.nanos,
    ensures
        !v.asked_for(seq, now),
        v.after_nacks(now, retry_delay).pending.dom().contains(seq),
        v.after_nacks(now, retry_delay).pending[seq] == v.pending[seq],
        v.after_nacks(now, retry_delay).expected == v.expected,
{
}

} // verus!
