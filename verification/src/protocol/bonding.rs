//! SMPTE 2022-7 bonding: sequence-based deduplication across multiple paths.
//!
//! When bonding is active, the same RTP packets are sent over multiple network
//! paths. The receiver uses this merger to deduplicate and fill gaps.

use bytes::Bytes;
use vstd::prelude::*;

use crate::octets;
use crate::serial;

verus! {

/// Sliding window size for deduplication (in sequence numbers).
const WINDOW_SIZE: usize = 1024;

/// What a [`BondingMerger`] remembers: the highest sequence number emitted,
/// and those emitted in the window that ends with it.
#[verifier::ext_equal]
pub struct MergerView {
    pub highest: Option<u16>,
    pub seen: Set<u16>,
    pub packets_emitted: u64,
    pub duplicates_dropped: u64,
    pub late_dropped: u64,
}

/// What a merger does with a packet.
pub enum Verdict {
    Emit,
    Duplicate,
    Late,
}

impl MergerView {
    /// What becomes of packet `seq`.
    pub open spec fn verdict(self, seq: u16) -> Verdict {
        match self.highest {
            None => Verdict::Emit,
            Some(highest) => {
                let behind = -serial::diff(highest, seq);
                if behind < 0 {
                    Verdict::Emit
                } else if behind >= 1024 {
                    Verdict::Late
                } else if behind == 0 || self.seen.contains(seq) {
                    Verdict::Duplicate
                } else {
                    Verdict::Emit
                }
            },
        }
    }

    /// What is remembered after packet `seq`.
    pub open spec fn after(self, seq: u16) -> MergerView {
        let highest = match self.highest {
            None => seq,
            Some(h) => if serial::diff(h, seq) > 0 {
                seq
            } else {
                h
            },
        };
        match self.verdict(seq) {
            Verdict::Emit => MergerView {
                highest: Some(highest),
                seen: Set::new(
                    |s: u16|
                        serial::ahead(s, highest) < 1024 && (s == seq || (self.highest is Some
                            && self.seen.contains(s))),
                ),
                packets_emitted: counted(self.packets_emitted),
                ..self
            },
            Verdict::Duplicate => MergerView {
                duplicates_dropped: counted(self.duplicates_dropped),
                ..self
            },
            Verdict::Late => MergerView { late_dropped: counted(self.late_dropped), ..self },
        }
    }

    /// What is remembered after packets `seqs`, in the order of their arrival
    /// over all paths.
    pub open spec fn after_all(self, seqs: Seq<u16>) -> MergerView
        decreases seqs.len(),
    {
        if seqs.len() == 0 {
            self
        } else {
            self.after_all(seqs.drop_last()).after(seqs.last())
        }
    }

    /// Whether packet `seq` has been emitted, or has fallen behind the window.
    pub open spec fn handled(self, seq: u16) -> bool {
        &&& self.highest is Some
        &&& {
            let behind = serial::ahead(seq, self.highest->0);
            behind <= 32_768 && (behind >= 1024 || self.seen.contains(seq))
        }
    }

    /// The highest number is among those emitted, and all of those lie in the
    /// window.
    pub open spec fn valid(self) -> bool {
        self.highest matches Some(h) ==> {
            &&& self.seen.contains(h)
            &&& forall|s: u16| #[trigger] self.seen.contains(s) ==> serial::ahead(s, h) < 1024
        }
    }
}

/// Whether bit `k` of the bitmap is set.
spec fn marked(bitmap: Seq<u64>, k: int) -> bool {
    (bitmap[k / 64] >> ((k % 64) as u64)) & 1 == 1
}

proof fn lemma_word_bits(w: u64, b: u64, i: u64)
    requires
        b < 64,
        i < 64,
    ensures
        ((w | (1u64 << b)) >> i) & 1 == 1 <==> i == b || (w >> i) & 1 == 1,
        ((w & !(1u64 << b)) >> i) & 1 == 1 <==> i != b && (w >> i) & 1 == 1,
        (w & (1u64 << i) != 0) == ((w >> i) & 1 == 1),
        (0u64 >> i) & 1 != 1,
{
    assert(((w | (1u64 << b)) >> i) & 1 == 1 <==> i == b || (w >> i) & 1 == 1) by (bit_vector)
        requires
            b < 64,
            i < 64,
    ;
    assert(((w & !(1u64 << b)) >> i) & 1 == 1 <==> i != b && (w >> i) & 1 == 1) by (bit_vector)
        requires
            b < 64,
            i < 64,
    ;
    assert((w & (1u64 << i) != 0) == ((w >> i) & 1 == 1) && (0u64 >> i) & 1 != 1) by (bit_vector)
        requires
            i < 64,
    ;
}

/// What a [`MergeWindow`] holds.
#[verifier::ext_equal]
pub struct MergeWindowView {
    /// The highest sequence number emitted.
    pub highest: Option<u16>,
    /// The sequence numbers emitted among the last 1024 up to the highest.
    pub seen: Set<u16>,
}

/// The sequence numbers that a merger has emitted lately.
#[derive(Debug)]
pub struct MergeWindow {
    /// Bitmap tracking which sequence numbers have been emitted.
    bitmap: [u64; 16],
    /// The highest sequence number we've emitted.
    highest_seq: Option<u16>,
}

impl View for MergeWindow {
    type V = MergeWindowView;

    closed spec fn view(&self) -> MergeWindowView {
        MergeWindowView {
            highest: self.highest_seq,
            seen: match self.highest_seq {
                None => Set::empty(),
                Some(h) => Set::new(
                    |s: u16| serial::ahead(s, h) < 1024 && marked(self.bitmap@, s as int % 1024),
                ),
            },
        }
    }
}

/// Bonding merger for SMPTE 2022-7 hitless switching.
///
/// Accepts packets from multiple paths and emits each unique packet exactly once.
/// Out-of-order packets within the window are accepted; packets outside the
/// window (too old) are dropped. The counters wrap at 64 bits.
#[derive(Debug)]
pub struct BondingMerger {
    /// Which sequence numbers have been emitted.
    pub window: MergeWindow,
    /// Number of packets emitted.
    pub packets_emitted: u64,
    /// Number of duplicate packets dropped.
    pub duplicates_dropped: u64,
    /// Number of late packets dropped (outside window).
    pub late_dropped: u64,
}

impl View for BondingMerger {
    type V = MergerView;

    open spec fn view(&self) -> MergerView {
        MergerView {
            highest: self.window@.highest,
            seen: self.window@.seen,
            packets_emitted: self.packets_emitted,
            duplicates_dropped: self.duplicates_dropped,
            late_dropped: self.late_dropped,
        }
    }
}

/// `n + 1`, modulo 2^64.
pub open spec fn counted(n: u64) -> u64 {
    if n == u64::MAX {
        0
    } else {
        (n + 1) as u64
    }
}

impl BondingMerger {
    /// A merger that has seen no packet.
    pub fn new() -> (m: Self)
        ensures
            m@ == (MergerView {
                highest: None,
                seen: Set::empty(),
                packets_emitted: 0,
                duplicates_dropped: 0,
                late_dropped: 0,
            }),
            m@.valid(),
    {
        Self {
            window: MergeWindow { bitmap: [0u64; 16], highest_seq: None },
            packets_emitted: 0,
            duplicates_dropped: 0,
            late_dropped: 0,
        }
    }

    /// Process an incoming packet from any bonded path.
    ///
    /// Returns `Some(data)` if this packet should be emitted (first time seen),
    /// or `None` if it's a duplicate or too late.
    pub fn process(&mut self, seq: u16, data: Bytes) -> (r: Option<Bytes>)
        requires
            old(self)@.valid(),
        ensures
            final(self)@ == old(self)@.after(seq),
            final(self)@.valid(),
            match r {
                Some(d) => old(self)@.verdict(seq) is Emit && octets::content(d)
                    == octets::content(data),
                None => !(old(self)@.verdict(seq) is Emit),
            },
    {
        proof {
            law_emits_what_is_not_handled(self@, seq);
        }
        match self.window.highest_seq {
            None => {
                self.window.start(seq);
                self.packets_emitted = self.packets_emitted.wrapping_add(1);
                assert(self@.seen =~= old(self)@.after(seq).seen);
                Some(data)
            },
            Some(highest) => {
                let diff: i32 = serial::signed_distance(highest, seq);
                if diff > 0 {
                    self.window.move_to(seq, highest);
                    self.packets_emitted = self.packets_emitted.wrapping_add(1);
                    assert(self@.seen =~= old(self)@.after(seq).seen);
                    Some(data)
                } else if diff == 0 {
                    self.duplicates_dropped = self.duplicates_dropped.wrapping_add(1);
                    None
                } else {
                    let behind: u16 = highest.wrapping_sub(seq);
                    assert(behind == -diff);
                    if behind as usize >= WINDOW_SIZE {
                        self.late_dropped = self.late_dropped.wrapping_add(1);
                        None
                    } else if self.window.is_seq_marked(seq) {
                        self.duplicates_dropped = self.duplicates_dropped.wrapping_add(1);
                        None
                    } else {
                        self.window.fill(seq, highest);
                        self.packets_emitted = self.packets_emitted.wrapping_add(1);
                        assert(self@.seen =~= old(self)@.after(seq).seen);
                        Some(data)
                    }
                }
            },
        }
    }
}

impl MergeWindow {
    /// Takes the first packet.
    fn start(&mut self, seq: u16)
        ensures
            final(self)@ == (MergeWindowView {
                highest: Some(seq),
                seen: Set::empty().insert(seq),
            }),
    {
        self.highest_seq = Some(seq);
        self.clear_bitmap();
        self.mark_seq(seq);
        proof {
            assert forall|s: u16| self@.seen.contains(s) <==> s == seq by {
                lemma_window_bits(seq, s, seq);
            }
            assert(self@.seen =~= Set::empty().insert(seq));
        }
    }

    /// Takes a packet ahead of the highest one, and moves the window to it.
    fn move_to(&mut self, seq: u16, highest: u16)
        requires
            old(self)@.highest == Some(highest),
            0 < serial::diff(highest, seq),
        ensures
            final(self)@ == (MergeWindowView {
                highest: Some(seq),
                seen: Set::new(
                    |s: u16| serial::ahead(s, seq) < 1024 && (s == seq || old(self)@.seen.contains(s)),
                ),
            }),
    {
        let advance: u16 = seq.wrapping_sub(highest);
        assert(seq == serial::plus(highest, advance as int));
        self.advance_window(highest, advance);
        let ghost cleared = self.bitmap@;
        self.highest_seq = Some(seq);
        self.mark_seq(seq);
        proof {
            assert forall|s: u16| serial::ahead(s, seq) < 1024 implies (#[trigger]
            self@.seen.contains(s) <==> s == seq || old(self)@.seen.contains(s)) by {
                lemma_advanced(old(self).bitmap@, cleared, highest, advance, seq, s);
                lemma_window_bits(seq, s, seq);
                assert(0 <= s as int % 1024 < 1024);
            }
            assert(self@.seen =~= Set::new(
                |s: u16| serial::ahead(s, seq) < 1024 && (s == seq || old(self)@.seen.contains(s)),
            ));
        }
    }

    /// Takes a packet that fills a gap in the window.
    fn fill(&mut self, seq: u16, highest: u16)
        requires
            old(self)@.highest == Some(highest),
            serial::ahead(seq, highest) < 1024,
        ensures
            final(self)@ == (MergeWindowView { seen: old(self)@.seen.insert(seq), ..old(self)@ }),
    {
        self.mark_seq(seq);
        proof {
            assert forall|s: u16| #[trigger] self@.seen.contains(s) <==> s == seq
                || old(self)@.seen.contains(s) by {
                lemma_window_bits(highest, s, seq);
                assert(0 <= s as int % 1024 < 1024);
            }
            assert(self@.seen =~= old(self)@.seen.insert(seq));
        }
    }

    /// Mark a sequence number as seen in the bitmap.
    fn mark_seq(&mut self, seq: u16)
        ensures
            final(self).highest_seq == old(self).highest_seq,
            forall|k: int|
                0 <= k < 1024 ==> #[trigger] marked(final(self).bitmap@, k) == (k == seq as int
                    % 1024 || marked(old(self).bitmap@, k)),
    {
        let idx: usize = seq as usize % WINDOW_SIZE;
        let word: usize = idx / 64;
        let bit: u64 = (idx % 64) as u64;
        let mask: u64 = 1u64 << bit;
        let value: u64 = self.bitmap[word] | mask;
        self.bitmap[word] = value;
        proof {
            assert forall|k: int| 0 <= k < 1024 implies #[trigger] marked(self.bitmap@, k) == (k
                == seq as int % 1024 || marked(old(self).bitmap@, k)) by {
                lemma_word_bits(old(self).bitmap@[k / 64], bit, (k % 64) as u64);
            }
        }
    }

    /// Check if a sequence number has been seen.
    fn is_seq_marked(&self, seq: u16) -> (b: bool)
        ensures
            b == marked(self.bitmap@, seq as int % 1024),
    {
        let idx: usize = seq as usize % WINDOW_SIZE;
        let word: usize = idx / 64;
        let bit: u64 = (idx % 64) as u64;
        proof {
            lemma_word_bits(self.bitmap@[word as int], 0, bit);
        }
        self.bitmap[word] & (1u64 << bit) != 0
    }

    /// Advance the window by clearing bits for newly entered positions.
    fn advance_window(&mut self, highest: u16, advance: u16)
        requires
            0 < advance < 32_768,
        ensures
            final(self).highest_seq == old(self).highest_seq,
            forall|k: int|
                0 <= k < 1024 ==> #[trigger] marked(final(self).bitmap@, k) == (marked(
                    old(self).bitmap@,
                    k,
                ) && !entered(highest, advance as int, k)),
    {
        if advance as usize >= WINDOW_SIZE {
            self.clear_bitmap();
            proof {
                assert forall|k: int| 0 <= k < 1024 implies entered(highest, advance as int, k) by {
                    lemma_all_entered(highest, advance as int, k);
                }
            }
            return;
        }
        let mut i: u16 = 0;
        while i < advance
            invariant
                i <= advance < 1024,
                self.highest_seq == old(self).highest_seq,
                forall|k: int|
                    0 <= k < 1024 ==> #[trigger] marked(self.bitmap@, k) == (marked(
                        old(self).bitmap@,
                        k,
                    ) && !entered(highest, i as int, k)),
            decreases advance - i,
        {
            i = i + 1;
            let seq: u16 = highest.wrapping_add(i);
            let idx: usize = seq as usize % WINDOW_SIZE;
            let word: usize = idx / 64;
            let bit: u64 = (idx % 64) as u64;
            let ghost before = self.bitmap@;
            let mask: u64 = !(1u64 << bit);
            let value: u64 = self.bitmap[word] & mask;
            self.bitmap[word] = value;
            proof {
                assert forall|k: int| 0 <= k < 1024 implies #[trigger] marked(self.bitmap@, k) == (
                marked(old(self).bitmap@, k) && !entered(highest, i as int, k)) by {
                    assert(marked(before, k) == (marked(old(self).bitmap@, k) && !entered(
                        highest,
                        i - 1,
                        k,
                    )));
                    lemma_word_bits(before[k / 64], bit, (k % 64) as u64);
                    lemma_entered_step(highest, i as int, k);
                }
            }
        }
    }

    fn clear_bitmap(&mut self)
        ensures
            final(self).highest_seq == old(self).highest_seq,
            forall|k: int| 0 <= k < 1024 ==> !#[trigger] marked(final(self).bitmap@, k),
    {
        self.bitmap = [0u64; 16];
        proof {
            assert forall|k: int| 0 <= k < 1024 implies !#[trigger] marked(self.bitmap@, k) by {
                lemma_word_bits(0, 0, (k % 64) as u64);
            }
        }
    }
}

impl Default for BondingMerger {
    fn default() -> (m: Self)
        ensures
            m@ == (MergerView {
                highest: None,
                seen: Set::empty(),
                packets_emitted: 0,
                duplicates_dropped: 0,
                late_dropped: 0,
            }),
            m@.valid(),
    {
        Self::new()
    }
}

/// Whether bit `k` belongs to one of the `n` numbers after `highest`.
spec fn entered(highest: u16, n: int, k: int) -> bool {
    exists|i: int| 1 <= i <= n && #[trigger] serial::plus(highest, i) as int % 1024 == k
}

proof fn lemma_entered_step(highest: u16, n: int, k: int)
    requires
        n >= 1,
    ensures
        entered(highest, n, k) <==> entered(highest, n - 1, k) || serial::plus(highest, n) as int
            % 1024 == k,
{
    if entered(highest, n - 1, k) {
        let i = choose|i: int|
            1 <= i <= n - 1 && #[trigger] serial::plus(highest, i) as int % 1024 == k;
        assert(serial::plus(highest, i) as int % 1024 == k);
    }
}

proof fn lemma_all_entered(highest: u16, n: int, k: int)
    requires
        n >= 1024,
        0 <= k < 1024,
    ensures
        entered(highest, n, k),
{
    let i = (k - highest - 1) % 1024 + 1;
    assert(serial::plus(highest, i) as int % 1024 == k);
}

/// The numbers in the window that ends with `highest` have bits of their own.
proof fn lemma_window_bits(highest: u16, s: u16, t: u16)
    ensures
        serial::ahead(s, highest) < 1024 && serial::ahead(t, highest) < 1024 && s as int % 1024
            == t as int % 1024 ==> s == t,
        serial::ahead(highest, highest) == 0,
{
}

/// The bits of the new window: those of the old window that stay in it keep
/// their value, those of the numbers that entered are clear.
proof fn lemma_advanced(
    before: Seq<u64>,
    after: Seq<u64>,
    highest: u16,
    advance: u16,
    seq: u16,
    s: u16,
)
    requires
        0 < advance < 32_768,
        seq == serial::plus(highest, advance as int),
        serial::ahead(s, seq) < 1024,
        forall|k: int|
            0 <= k < 1024 ==> #[trigger] marked(after, k) == (marked(before, k) && !entered(
                highest,
                advance as int,
                k,
            )),
    ensures
        marked(after, s as int % 1024) == (serial::ahead(s, highest) < 1024 && marked(
            before,
            s as int % 1024,
        )),
{
    let k = s as int % 1024;
    let d = serial::ahead(s, seq);
    lemma_place(highest, advance as int, s, 0);
    if d < advance {
        let i = advance - d;
        assert(serial::plus(highest, i) as int % 1024 == k);
        assert(entered(highest, advance as int, k));
    } else if entered(highest, advance as int, k) {
        let i = choose|i: int|
            1 <= i <= advance && #[trigger] serial::plus(highest, i) as int % 1024 == k;
        lemma_place(highest, advance as int, s, i);
        lemma_same_bit_is_far(s, serial::plus(highest, i), d - advance + i);
    }
}

/// Where a number of the window that ends `advance` places after `highest`
/// stands in relation to `highest`.
proof fn lemma_place(highest: u16, advance: int, s: u16, i: int)
    requires
        0 < advance < 32_768,
        serial::ahead(s, serial::plus(highest, advance)) < 1024,
    ensures
        ({
            let d = serial::ahead(s, serial::plus(highest, advance));
            &&& d < advance ==> serial::plus(highest, advance - d) == s && serial::ahead(s, highest)
                >= 1024
            &&& d >= advance ==> serial::ahead(s, highest) == d - advance && serial::plus(
                highest,
                i,
            ) == serial::plus(s, d - advance + i)
        }),
{
}

proof fn lemma_same_bit_is_far(s: u16, t: u16, d: int)
    requires
        t == serial::plus(s, d),
        s as int % 1024 == t as int % 1024,
        0 < d,
    ensures
        d >= 1024,
{
}

/// A packet is emitted if and only if it has not been emitted before and has
/// not fallen behind the window.
pub proof fn law_emits_what_is_not_handled(v: MergerView, seq: u16)
    requires
        v.valid(),
    ensures
        v.verdict(seq) is Emit <==> !v.handled(seq),
        v.after(seq).handled(seq),
        v.after(seq).valid(),
{
}

/// No packet is emitted twice: once handled, a packet stays handled, as long
/// as the stream has not moved on by more than half the sequence space.
pub proof fn law_handled_stays_handled(v: MergerView, seq: u16, other: u16)
    requires
        v.valid(),
        v.handled(seq),
        serial::ahead(seq, v.after(other).highest->0) <= 32_768,
    ensures
        v.after(other).handled(seq),
{
}

/// Whatever arrives over the paths, a packet that comes again is not emitted
/// again, as long as the stream has not moved on by more than half the
/// sequence space in between.
pub proof fn law_no_packet_is_emitted_twice(v: MergerView, seqs: Seq<u16>, i: int, j: int)
    requires
        v.valid(),
        0 <= i < j < seqs.len(),
        seqs[i] == seqs[j],
        forall|k: int|
            i < k <= j ==> serial::ahead(
                seqs[i],
                (#[trigger] v.after_all(seqs.take(k))).highest->0,
            ) <= 32_768,
    ensures
        !(v.after_all(seqs.take(j)).verdict(seqs[j]) is Emit),
{
    lemma_arrived_is_handled(v, seqs, i, j);
    law_emits_what_is_not_handled(v.after_all(seqs.take(j)), seqs[j]);
}

proof fn lemma_arrived_is_handled(v: MergerView, seqs: Seq<u16>, i: int, m: int)
    requires
        v.valid(),
        0 <= i < m <= seqs.len(),
        forall|k: int|
            i < k <= m ==> serial::ahead(
                seqs[i],
                (#[trigger] v.after_all(seqs.take(k))).highest->0,
            ) <= 32_768,
    ensures
        v.after_all(seqs.take(m)).valid(),
        v.after_all(seqs.take(m)).handled(seqs[i]),
    decreases m,
{
    let before = v.after_all(seqs.take(m - 1));
    assert(seqs.take(m).drop_last() =~= seqs.take(m - 1));
    assert(seqs.take(m).last() == seqs[m - 1]);
    lemma_valid_after_all(v, seqs.take(m - 1));
    law_emits_what_is_not_handled(before, seqs[m - 1]);
    if i < m - 1 {
        lemma_arrived_is_handled(v, seqs, i, m - 1);
        law_handled_stays_handled(before, seqs[i], seqs[m - 1]);
    }
}

proof fn lemma_valid_after_all(v: MergerView, seqs: Seq<u16>)
    requires
        v.valid(),
    ensures
        v.after_all(seqs).valid(),
    decreases seqs.len(),
{
    if seqs.len() > 0 {
        lemma_valid_after_all(v, seqs.drop_last());
        law_emits_what_is_not_handled(v.after_all(seqs.drop_last()), seqs.last());
    }
}

/// Whether the packets `seqs` stay within half a lap: all lie within a quarter
/// of the sequence numbers before or after `origin`.
pub open spec fn near(seqs: Seq<u16>, origin: u16) -> bool {
    forall|i: int|
        0 <= i < seqs.len() ==> -16_384 <= serial::place(origin, #[trigger] seqs[i]) < 16_384
}

/// Whether some packet of `seqs` lies 1024 or more ahead of `seq`.
pub open spec fn left_behind(seqs: Seq<u16>, origin: u16, seq: u16) -> bool {
    exists|i: int|
        0 <= i < seqs.len() && serial::place(origin, #[trigger] seqs[i]) - serial::place(
            origin,
            seq,
        ) >= 1024
}

/// What a merger remembers of a run within half a lap: the highest number, and
/// those that came among the 1024 that end with it.
spec fn remembers(v: MergerView, seqs: Seq<u16>, origin: u16) -> bool {
    &&& v.highest is None <==> seqs.len() == 0
    &&& v.highest matches Some(h) ==> {
        &&& seqs.contains(h)
        &&& forall|i: int|
            0 <= i < seqs.len() ==> serial::place(origin, #[trigger] seqs[i]) <= serial::place(
                origin,
                h,
            )
        &&& forall|s: u16| #[trigger]
            v.seen.contains(s) <==> seqs.contains(s) && serial::place(origin, h) - serial::place(
                origin,
                s,
            ) < 1024
    }
}

proof fn lemma_run_is_remembered(v: MergerView, seqs: Seq<u16>, origin: u16)
    requires
        v.highest is None,
        near(seqs, origin),
    ensures
        remembers(v.after_all(seqs), seqs, origin),
    decreases seqs.len(),
{
    if seqs.len() > 0 {
        let shorter = seqs.drop_last();
        let seq = seqs.last();
        let before = v.after_all(shorter);
        let after = v.after_all(seqs);
        assert forall|i: int| 0 <= i < shorter.len() implies -16_384 <= serial::place(
            origin,
            #[trigger] shorter[i],
        ) < 16_384 by {
            assert(shorter[i] == seqs[i]);
        }
        lemma_run_is_remembered(v, shorter, origin);
        assert(seq == seqs[seqs.len() - 1]);
        assert forall|s: u16| #[trigger] seqs.contains(s) <==> shorter.contains(s) || s == seq by {
            if seqs.contains(s) {
                let i = choose|i: int| 0 <= i < seqs.len() && seqs[i] == s;
                if i < shorter.len() {
                    assert(shorter[i] == s);
                }
            }
            if shorter.contains(s) {
                let i = choose|i: int| 0 <= i < shorter.len() && shorter[i] == s;
                assert(seqs[i] == s);
            }
        }
        assert forall|s: u16| #[trigger] seqs.contains(s) implies -16_384 <= serial::place(
            origin,
            s,
        ) < 16_384 by {
            let i = choose|i: int| 0 <= i < seqs.len() && seqs[i] == s;
            assert(-16_384 <= serial::place(origin, seqs[i]) < 16_384);
        }
        if let Some(h) = before.highest {
            assert(seqs.contains(h));
            assert(seqs.contains(seq));
            serial::lemma_near_distance(origin, h, seq);
        }
        let top = after.highest->0;
        assert(seqs.contains(top));
        assert forall|i: int| 0 <= i < seqs.len() implies serial::place(
            origin,
            #[trigger] seqs[i],
        ) <= serial::place(origin, top) by {
            if i < shorter.len() {
                assert(shorter[i] == seqs[i]);
            }
        }
        assert forall|s: u16| #[trigger] after.seen.contains(s) <==> seqs.contains(s)
            && serial::place(origin, top) - serial::place(origin, s) < 1024 by {
            if seqs.contains(s) {
                let i = choose|i: int| 0 <= i < seqs.len() && seqs[i] == s;
                assert(serial::place(origin, seqs[i]) <= serial::place(origin, top));
                serial::lemma_near_distance(origin, s, top);
            }
        }
    }
}

/// Over any run of arrivals within half a lap, a packet is emitted exactly if
/// it has not come before and none has come that lies 1024 or more ahead of it.
/// One that has come is a duplicate, one left behind is late.
pub proof fn law_each_packet_is_emitted_once(
    v: MergerView,
    seqs: Seq<u16>,
    origin: u16,
    seq: u16,
)
    requires
        v.highest is None,
        near(seqs, origin),
        -16_384 <= serial::place(origin, seq) < 16_384,
    ensures
        ({
            let verdict = v.after_all(seqs).verdict(seq);
            &&& verdict is Emit <==> !seqs.contains(seq) && !left_behind(seqs, origin, seq)
            &&& verdict is Duplicate <==> seqs.contains(seq) && !left_behind(seqs, origin, seq)
            &&& verdict is Late <==> left_behind(seqs, origin, seq)
        }),
{
    let w = v.after_all(seqs);
    lemma_run_is_remembered(v, seqs, origin);
    if let Some(h) = w.highest {
        let k = choose|k: int| 0 <= k < seqs.len() && seqs[k] == h;
        assert(-16_384 <= serial::place(origin, seqs[k]) < 16_384);
        serial::lemma_near_distance(origin, h, seq);
        if serial::place(origin, h) - serial::place(origin, seq) >= 1024 {
            assert(left_behind(seqs, origin, seq));
        }
        if seqs.contains(seq) {
            let j = choose|j: int| 0 <= j < seqs.len() && seqs[j] == seq;
            assert(serial::place(origin, seqs[j]) <= serial::place(origin, h));
        }
    }
}

/// Every packet is counted once, as what became of it.
pub proof fn law_every_packet_is_counted(v: MergerView, seq: u16)
    ensures
        ({
            let w = v.after(seq);
            let emitted: int = if v.verdict(seq) is Emit {
                1
            } else {
                0
            };
            let duplicate: int = if v.verdict(seq) is Duplicate {
                1
            } else {
                0
            };
            let late: int = if v.verdict(seq) is Late {
                1
            } else {
                0
            };
            &&& w.packets_emitted == (v.packets_emitted + emitted) % 0x1_0000_0000_0000_0000
            &&& w.duplicates_dropped == (v.duplicates_dropped + duplicate)
                % 0x1_0000_0000_0000_0000
            &&& w.late_dropped == (v.late_dropped + late) % 0x1_0000_0000_0000_0000
        }),
{
}

} // verus!
