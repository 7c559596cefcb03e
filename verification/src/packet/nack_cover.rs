//! How few NACK entries name a list of lost packets.

use vstd::prelude::*;

use crate::packet::rtcp_nack;
use crate::packet::rtcp_nack::{BitmaskNack, RangeNack};
use crate::serial;

verus! {

/// Whether the numbers of `seqs` ascend.
pub open spec fn ascends(seqs: Seq<u16>) -> bool {
    forall|i: int, j: int| 0 <= i < j < seqs.len() ==> seqs[i] < seqs[j]
}

/// Whether going on from the last number of `seqs`, more than `gap` places
/// lead to the first.
pub open spec fn ends_apart(seqs: Seq<u16>, gap: int) -> bool {
    seqs.len() > 1 ==> serial::ahead(seqs.last(), seqs[0]) > gap
}

/// Whether some entry names `seq` as lost.
pub open spec fn bitmasks_name(entries: Seq<BitmaskNack>, seq: u16) -> bool {
    exists|k: int| 0 <= k < entries.len() && (#[trigger] entries[k]).names(seq)
}

/// Whether some entry names `seq` as lost.
pub open spec fn ranges_name(entries: Seq<RangeNack>, seq: u16) -> bool {
    exists|k: int| 0 <= k < entries.len() && (#[trigger] entries[k]).names(seq)
}

/// A list of different indices below `n` has at most `n` of them.
proof fn lemma_pigeonhole(indices: Seq<int>, n: nat)
    requires
        indices.no_duplicates(),
        forall|i: int| 0 <= i < indices.len() ==> 0 <= #[trigger] indices[i] < n,
    ensures
        indices.len() <= n,
{
    let below = vstd::set_lib::set_int_range(0, n as int);
    indices.unique_seq_to_set();
    vstd::set_lib::lemma_int_range(0, n as int);
    assert(indices.to_set().subset_of(below));
    vstd::set_lib::lemma_len_subset(indices.to_set(), below);
}

/// The first numbers of the bitmask entries are on the list, and each lies
/// beyond the reach of those before it.
proof fn lemma_pids_are_apart(seqs: Seq<u16>)
    requires
        ascends(seqs),
    ensures
        ({
            let entries = rtcp_nack::packed_bitmasks(seqs);
            &&& forall|i: int|
                0 <= i < entries.len() ==> seqs.contains((#[trigger] entries[i]).pid)
            &&& forall|i: int, j: int|
                0 <= i < j < entries.len() ==> (#[trigger] entries[j]).pid - (
                #[trigger] entries[i]).pid > 16
        }),
    decreases seqs.len(),
{
    if seqs.len() > 0 {
        let pid = seqs[0];
        let after = seqs.skip(1);
        let n = rtcp_nack::covered(pid, after) as int;
        let rest = seqs.skip(n + 1);
        let entries = rtcp_nack::packed_bitmasks(seqs);
        let others = rtcp_nack::packed_bitmasks(rest);
        rtcp_nack::lemma_covered(pid, after);
        lemma_pids_are_apart(rest);
        assert(entries[0].pid == pid);
        assert forall|i: int| 1 <= i < entries.len() implies seqs.contains(
            (#[trigger] entries[i]).pid,
        ) && entries[i].pid - pid > 16 by {
            assert(entries[i] == others[i - 1]);
            let k = choose|k: int| 0 <= k < rest.len() && rest[k] == others[i - 1].pid;
            assert(seqs[k + n + 1] == entries[i].pid);
            assert(after[n] == seqs[n + 1]);
            assert(seqs[0] < seqs[n + 1]);
            if k > 0 {
                assert(seqs[n + 1] < seqs[k + n + 1]);
            }
        }
        assert forall|i: int, j: int| 0 <= i < j < entries.len() implies (
        #[trigger] entries[j]).pid - (#[trigger] entries[i]).pid > 16 by {
            assert(entries[j] == others[j - 1]);
            if i > 0 {
                assert(entries[i] == others[i - 1]);
            }
        }
    }
}

/// An ascending list needs few bitmask entries, however long it is: each
/// takes 17 of the sequence numbers for itself.
pub proof fn law_bitmasks_are_few(seqs: Seq<u16>)
    requires
        ascends(seqs),
    ensures
        rtcp_nack::packed_bitmasks(seqs).len() <= 3_856,
{
    let entries = rtcp_nack::packed_bitmasks(seqs);
    lemma_pids_are_apart(seqs);
    if entries.len() > 0 {
        lemma_pid_grows(entries, entries.len() - 1);
    }
}

proof fn lemma_pid_grows(entries: Seq<BitmaskNack>, i: int)
    requires
        0 <= i < entries.len(),
        forall|i: int, j: int|
            0 <= i < j < entries.len() ==> (#[trigger] entries[j]).pid - (
            #[trigger] entries[i]).pid > 16,
    ensures
        entries[i].pid >= 17 * i,
    decreases i,
{
    if i > 0 {
        lemma_pid_grows(entries, i - 1);
        assert(entries[i].pid - entries[i - 1].pid > 16);
    }
}

/// An entry does not name two numbers that lie beyond its reach of each other,
/// either way round.
proof fn lemma_one_of_two(entry: BitmaskNack, s: u16, t: u16)
    requires
        serial::ahead(s, t) > 16,
        serial::ahead(t, s) > 16,
    ensures
        !(entry.names(s) && entry.names(t)),
{
}

/// No list of bitmask entries that names every number of an ascending list is
/// shorter than the one that is built for it. The ends of the list must not
/// lie so close together, across the wrap, that one entry could name both.
pub proof fn law_bitmasks_are_the_fewest(seqs: Seq<u16>, entries: Seq<BitmaskNack>)
    requires
        ascends(seqs),
        ends_apart(seqs, 16),
        forall|i: int| 0 <= i < seqs.len() ==> bitmasks_name(entries, #[trigger] seqs[i]),
    ensures
        rtcp_nack::packed_bitmasks(seqs).len() <= entries.len(),
{
    let built = rtcp_nack::packed_bitmasks(seqs);
    lemma_pids_are_apart(seqs);
    let used = Seq::new(
        built.len(),
        |i: int| choose|k: int| 0 <= k < entries.len() && (#[trigger] entries[k]).names(built[i].pid),
    );
    assert forall|i: int| 0 <= i < used.len() implies 0 <= #[trigger] used[i] < entries.len()
        && entries[used[i]].names(built[i].pid) by {
        let j = choose|j: int| 0 <= j < seqs.len() && seqs[j] == built[i].pid;
        assert(bitmasks_name(entries, seqs[j]));
    }
    assert forall|i: int, j: int| 0 <= i < j < used.len() implies used[i] != used[j] by {
        let s = built[i].pid;
        let t = built[j].pid;
        let a = choose|a: int| 0 <= a < seqs.len() && seqs[a] == s;
        let b = choose|b: int| 0 <= b < seqs.len() && seqs[b] == t;
        assert(seqs.contains(s) && seqs.contains(t));
        if a > 0 {
            assert(seqs[0] < seqs[a]);
        }
        if b < seqs.len() - 1 {
            assert(seqs[b] < seqs[seqs.len() - 1]);
        }
        lemma_one_of_two(entries[used[i]], s, t);
    }
    lemma_pigeonhole(used, entries.len());
}

/// A run ends where the next number of the list does not follow it, or where
/// its count is full.
proof fn lemma_run_ends(start: u16, extra: int, seqs: Seq<u16>)
    requires
        0 <= extra,
    ensures
        ({
            let n = rtcp_nack::run_on(start, extra, seqs) as int;
            n < seqs.len() ==> extra + n >= 65_535 || seqs[n] != serial::plus(
                start,
                extra + n + 1,
            )
        }),
    decreases seqs.len(),
{
    rtcp_nack::lemma_run_on(start, extra, seqs);
    if seqs.len() > 0 && extra < 65_535 && seqs[0] == serial::plus(start, extra + 1) {
        let rest = seqs.skip(1);
        let n = rtcp_nack::run_on(start, extra + 1, rest) as int;
        lemma_run_ends(start, extra + 1, rest);
        if n < rest.len() {
            assert(rest[n] == seqs[n + 1]);
        }
    }
}

/// The first numbers of the range entries ascend on the list, and the number
/// before each, but for the first, is not on it.
proof fn lemma_starts_have_a_gap_before(seqs: Seq<u16>)
    requires
        ascends(seqs),
    ensures
        ({
            let entries = rtcp_nack::packed_ranges(seqs);
            &&& forall|i: int|
                0 <= i < entries.len() ==> seqs.contains((#[trigger] entries[i]).start)
            &&& forall|i: int, j: int|
                0 <= i < j < entries.len() ==> (#[trigger] entries[i]).start < (
                #[trigger] entries[j]).start
            &&& forall|i: int, k: int|
                #![trigger entries[i], seqs[k]]
                0 < i < entries.len() && 0 <= k < seqs.len() ==> seqs[k] + 1 != entries[i].start
            &&& seqs.len() > 0 ==> entries.len() > 0 && entries[0].start == seqs[0]
        }),
    decreases seqs.len(),
{
    if seqs.len() > 0 {
        let start = seqs[0];
        let after = seqs.skip(1);
        let n = rtcp_nack::run_on(start, 0, after) as int;
        let rest = seqs.skip(n + 1);
        let entries = rtcp_nack::packed_ranges(seqs);
        let others = rtcp_nack::packed_ranges(rest);
        rtcp_nack::lemma_run_on(start, 0, after);
        lemma_run_ends(start, 0, after);
        lemma_starts_have_a_gap_before(rest);
        lemma_run_does_not_wrap(seqs, n);
        assert forall|i: int| 1 <= i < entries.len() implies seqs.contains(
            (#[trigger] entries[i]).start,
        ) && start < entries[i].start by {
            assert(entries[i] == others[i - 1]);
            let k = choose|k: int| 0 <= k < rest.len() && rest[k] == others[i - 1].start;
            assert(seqs[k + n + 1] == entries[i].start);
            assert(seqs[0] < seqs[k + n + 1]);
        }
        assert forall|i: int, j: int| 0 <= i < j < entries.len() implies (
        #[trigger] entries[i]).start < (#[trigger] entries[j]).start by {
            assert(entries[j] == others[j - 1]);
            if i > 0 {
                assert(entries[i] == others[i - 1]);
            }
        }
        assert forall|i: int, k: int|
            #![trigger entries[i], seqs[k]]
            0 < i < entries.len() && 0 <= k < seqs.len() implies seqs[k] + 1
            != entries[i].start by {
            assert(entries[i] == others[i - 1]);
            if k > n {
                assert(rest[k - n - 1] == seqs[k]);
                if i == 1 {
                    assert(rest[0] == entries[1].start);
                    if k > n + 1 {
                        assert(seqs[n + 1] < seqs[k]);
                    }
                }
            } else {
                assert(rest[0] == seqs[n + 1]);
                assert(after[n] == seqs[n + 1]);
                assert(seqs[n] < seqs[n + 1]);
                if k < n {
                    assert(seqs[k] < seqs[n]);
                }
                if i > 1 {
                    assert(others[0].start < others[i - 1].start);
                }
            }
        }
    }
}

/// The first run of an ascending list counts up from its start.
proof fn lemma_run_does_not_wrap(seqs: Seq<u16>, n: int)
    requires
        seqs.len() > 0,
        ascends(seqs),
        0 <= n < seqs.len(),
        forall|i: int| 0 <= i < n ==> #[trigger] seqs.skip(1)[i] == serial::plus(seqs[0], 1 + i),
    ensures
        seqs[n] == seqs[0] + n,
    decreases n,
{
    if n > 0 {
        lemma_run_does_not_wrap(seqs, n - 1);
        assert(seqs.skip(1)[n - 1] == seqs[n]);
        assert(seqs[n - 1] < seqs[n]);
    }
}

/// A range that names a number and not the one before it starts there.
proof fn lemma_range_starts(entry: RangeNack, seq: u16)
    requires
        entry.names(seq),
        !entry.names(serial::plus(seq, -1)),
    ensures
        entry.start == seq,
{
}

/// No list of range entries that names the numbers of an ascending list, and
/// no others, is shorter than the one that is built for it. The list must not
/// go on without a gap across the wrap.
pub proof fn law_ranges_are_the_fewest(seqs: Seq<u16>, entries: Seq<RangeNack>)
    requires
        ascends(seqs),
        ends_apart(seqs, 1),
        forall|s: u16| #[trigger] seqs.contains(s) <==> ranges_name(entries, s),
    ensures
        rtcp_nack::packed_ranges(seqs).len() <= entries.len(),
{
    let built = rtcp_nack::packed_ranges(seqs);
    lemma_starts_have_a_gap_before(seqs);
    let used = Seq::new(
        built.len(),
        |i: int|
            choose|k: int| 0 <= k < entries.len() && (#[trigger] entries[k]).names(built[i].start),
    );
    assert forall|i: int| 0 <= i < used.len() implies 0 <= #[trigger] used[i] < entries.len()
        && entries[used[i]].names(built[i].start) by {
        assert(seqs.contains(built[i].start));
        assert(ranges_name(entries, built[i].start));
    }
    assert forall|i: int| #![trigger used[i]] 0 <= i < used.len() && used.len() > 1 implies entries[used[i]].start
        == built[i].start by {
        let s = built[i].start;
        let before = serial::plus(s, -1);
        assert(seqs.len() > 1) by {
            let a = choose|a: int| 0 <= a < seqs.len() && seqs[a] == built[0].start;
            let b = choose|b: int| 0 <= b < seqs.len() && seqs[b] == built[1].start;
            assert(seqs.contains(built[0].start) && seqs.contains(built[1].start));
        }
        assert(!seqs.contains(before)) by {
            if seqs.contains(before) {
                let k = choose|k: int| 0 <= k < seqs.len() && seqs[k] == before;
                if i == 0 {
                    if k > 0 {
                        assert(seqs[0] < seqs[k]);
                    }
                    if k < seqs.len() - 1 {
                        assert(seqs[k] < seqs[seqs.len() - 1]);
                    }
                } else {
                    assert(seqs[k] + 1 != built[i].start);
                    assert(built[0].start < built[i].start);
                }
            }
        }
        if entries[used[i]].names(before) {
            assert(ranges_name(entries, before));
        }
        lemma_range_starts(entries[used[i]], s);
    }
    assert forall|i: int, j: int| 0 <= i < j < used.len() implies used[i] != used[j] by {
        assert(built[i].start < built[j].start);
    }
    lemma_pigeonhole(used, entries.len());
}

} // verus!
