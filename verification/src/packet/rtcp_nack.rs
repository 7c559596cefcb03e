//! RTCP NACK packets for retransmission requests (RFC 4585).
//!
//! RIST supports two NACK formats:
//! - Bitmask-based (Generic NACK, PT=205, FMT=1), RFC 4585 Section 6.2.1
//! - Range-based (APP NACK, PT=205, FMT=15), TR-06-1:2020 Section 5.3.2.2

use bytes::BytesMut;
use vstd::prelude::*;

use crate::error::{RistError, RistErrorView};
use crate::octets;
use crate::packet::common;
use crate::serial;

verus! {

broadcast use {octets::lemma_be16_len, octets::lemma_be32_len};

/// RTCP packet type for Transport-layer Feedback (RTPFB).
pub const RTCP_PT_RTPFB: u8 = 205;

/// FMT for Generic NACK (bitmask-based).
pub const NACK_FMT_GENERIC: u8 = 1;

/// FMT for Range-based NACK (RIST-specific, uses FMT=15 APP).
pub const NACK_FMT_RANGE: u8 = 15;

/// A single bitmask NACK entry (RFC 4585 Section 6.2.1).
/// PID identifies one lost packet; BLP is a bitmask covering the next 16 packets.
#[derive(Debug, Clone, Copy, PartialEq, Eq, Structural)]
pub struct BitmaskNack {
    /// The sequence number of a lost packet.
    pub pid: u16,
    /// Bitmask of following lost packets. Bit 0 = pid+1, bit 1 = pid+2, etc.
    pub blp: u16,
}

/// Whether bit `i` of `mask` is set.
pub open spec fn has_bit(mask: u16, i: int) -> bool {
    (mask >> (i as u16)) & 1 == 1
}

impl BitmaskNack {
    /// Whether the entry names `seq` as lost.
    pub open spec fn names(self, seq: u16) -> bool {
        let d = serial::ahead(self.pid, seq);
        d == 0 || (d <= 16 && has_bit(self.blp, d - 1))
    }

    /// The lost sequence numbers up to `n` places after the first, in order.
    pub open spec fn lost_within(self, n: nat) -> Seq<u16>
        decreases n,
    {
        if n == 0 {
            seq![self.pid]
        } else {
            let nearer = self.lost_within((n - 1) as nat);
            if has_bit(self.blp, n - 1) {
                nearer.push(serial::plus(self.pid, n as int))
            } else {
                nearer
            }
        }
    }

    /// The lost sequence numbers of the entry, in order.
    pub open spec fn lost(self) -> Seq<u16> {
        self.lost_within(16)
    }

    /// All lost sequence numbers in this NACK, in order.
    pub fn lost_seqs(&self) -> (seqs: Vec<u16>)
        ensures
            seqs@ == self.lost(),
    {
        let mut seqs: Vec<u16> = Vec::new();
        seqs.push(self.pid);
        assert(seqs@ =~= self.lost_within(0));
        let mut i: u16 = 0;
        while i < 16
            invariant
                i <= 16,
                seqs@ == self.lost_within(i as nat),
            decreases 16 - i,
        {
            let blp: u16 = self.blp;
            assert((blp & (1u16 << i) != 0) == ((blp >> i) & 1 == 1)) by (bit_vector)
                requires
                    i < 16,
            ;
            if blp & (1u16 << i) != 0 {
                seqs.push(self.pid.wrapping_add(i + 1));
            }
            i = i + 1;
        }
        seqs
    }
}

/// A single range NACK entry (TR-06-1:2020 Section 5.3.2.2).
/// Identifies a contiguous range of lost packets.
#[derive(Debug, Clone, Copy, PartialEq, Eq, Structural)]
pub struct RangeNack {
    /// First lost sequence number.
    pub start: u16,
    /// Number of additional lost packets beyond `start`.
    /// Total lost = extra + 1.
    pub extra: u16,
}

impl RangeNack {
    /// Whether the entry names `seq` as lost.
    pub open spec fn names(self, seq: u16) -> bool {
        serial::ahead(self.start, seq) <= self.extra
    }

    /// The lost sequence numbers of the entry, in order.
    pub open spec fn lost(self) -> Seq<u16> {
        Seq::new((self.extra + 1) as nat, |i: int| serial::plus(self.start, i))
    }

    /// All lost sequence numbers in this range, in order.
    pub fn lost_seqs(&self) -> (seqs: Vec<u16>)
        ensures
            seqs@ == self.lost(),
    {
        let mut seqs: Vec<u16> = Vec::new();
        let count: u32 = self.extra as u32 + 1;
        let mut i: u32 = 0;
        while i < count
            invariant
                i <= count <= 65_536,
                seqs@ == Seq::new(i as nat, |k: int| serial::plus(self.start, k)),
            decreases count - i,
        {
            seqs.push(self.start.wrapping_add(i as u16));
            i = i + 1;
            assert(seqs@ =~= Seq::new(i as nat, |k: int| serial::plus(self.start, k)));
        }
        assert(seqs@ =~= self.lost());
        seqs
    }
}

/// A NACK packet containing one or more NACK entries.
#[derive(Debug, PartialEq, Eq)]
pub struct NackPacket {
    /// SSRC of the packet sender (the receiver requesting retransmission).
    pub sender_ssrc: u32,
    /// SSRC of the media source whose packets are missing.
    pub media_ssrc: u32,
    /// NACK entries (either all bitmask or all range).
    pub entries: NackEntries,
}

/// NACK entry format.
#[derive(Debug, PartialEq, Eq)]
pub enum NackEntries {
    Bitmask(Vec<BitmaskNack>),
    Range(Vec<RangeNack>),
}

/// [`NackEntries`] with the entries as a sequence.
#[verifier::ext_equal]
pub enum NackEntriesView {
    Bitmask(Seq<BitmaskNack>),
    Range(Seq<RangeNack>),
}

/// A [`NackPacket`] with its entries as a sequence.
#[verifier::ext_equal]
pub struct NackPacketView {
    pub sender_ssrc: u32,
    pub media_ssrc: u32,
    pub entries: NackEntriesView,
}

impl View for NackEntries {
    type V = NackEntriesView;

    open spec fn view(&self) -> NackEntriesView {
        match *self {
            NackEntries::Bitmask(v) => NackEntriesView::Bitmask(v@),
            NackEntries::Range(v) => NackEntriesView::Range(v@),
        }
    }
}

impl View for NackPacket {
    type V = NackPacketView;

    open spec fn view(&self) -> NackPacketView {
        NackPacketView {
            sender_ssrc: self.sender_ssrc,
            media_ssrc: self.media_ssrc,
            entries: self.entries@,
        }
    }
}

impl Clone for NackEntries {
    fn clone(&self) -> (e: Self)
        ensures
            e@ == self@,
    {
        match self {
            NackEntries::Bitmask(v) => {
                let w: Vec<BitmaskNack> = v.clone();
                assert(w@ =~= v@);
                NackEntries::Bitmask(w)
            },
            NackEntries::Range(v) => {
                let w: Vec<RangeNack> = v.clone();
                assert(w@ =~= v@);
                NackEntries::Range(w)
            },
        }
    }
}

impl Clone for NackPacket {
    fn clone(&self) -> (p: Self)
        ensures
            p@ == self@,
    {
        NackPacket {
            sender_ssrc: self.sender_ssrc,
            media_ssrc: self.media_ssrc,
            entries: self.entries.clone(),
        }
    }
}

impl NackEntriesView {
    /// The feedback message type of the format.
    pub open spec fn fmt(self) -> u8 {
        match self {
            NackEntriesView::Bitmask(_) => NACK_FMT_GENERIC,
            NackEntriesView::Range(_) => NACK_FMT_RANGE,
        }
    }

    /// The two words of each entry.
    pub open spec fn pairs(self) -> Seq<(u16, u16)> {
        match self {
            NackEntriesView::Bitmask(v) => v.map_values(|n: BitmaskNack| (n.pid, n.blp)),
            NackEntriesView::Range(v) => v.map_values(|n: RangeNack| (n.start, n.extra)),
        }
    }

    /// The entries of format `fmt` with these words.
    pub open spec fn from_pairs(fmt: u8, pairs: Seq<(u16, u16)>) -> NackEntriesView {
        if fmt == NACK_FMT_GENERIC {
            NackEntriesView::Bitmask(
                pairs.map_values(|p: (u16, u16)| BitmaskNack { pid: p.0, blp: p.1 }),
            )
        } else {
            NackEntriesView::Range(
                pairs.map_values(|p: (u16, u16)| RangeNack { start: p.0, extra: p.1 }),
            )
        }
    }
}

impl NackPacketView {
    /// Whether the word count fits the length field.
    pub open spec fn fits(self) -> bool {
        2 + self.entries.pairs().len() < 65_536
    }

    /// The bytes after the common header.
    pub open spec fn body(self) -> Seq<u8> {
        octets::be32(self.sender_ssrc) + octets::be32(self.media_ssrc) + common::pairs_wire(
            self.entries.pairs(),
        )
    }

    /// The packet with its common header. The length stands there modulo 65536.
    pub open spec fn wire(self) -> Seq<u8> {
        common::header_wire(
            (0x80 + self.entries.fmt()) as u8,
            RTCP_PT_RTPFB,
            ((2 + self.entries.pairs().len()) % 65_536) as u16,
        ) + self.body()
    }

    /// How many entries a payload of `payload_len` bytes holds.
    pub open spec fn entry_count(payload_len: int) -> nat {
        if payload_len < 8 {
            0
        } else {
            ((payload_len - 8) / 4) as nat
        }
    }

    /// The NACK in `s`, which starts past the common header and counts
    /// `payload_len` bytes, or why there is none.
    pub open spec fn parsed(s: Seq<u8>, fmt: u8, payload_len: int) -> Result<
        NackPacketView,
        RistErrorView,
    > {
        if s.len() < 8 {
            Err(RistErrorView::PacketTooShort { expected: 8, actual: s.len() as int })
        } else if fmt != NACK_FMT_GENERIC && fmt != NACK_FMT_RANGE {
            Err(RistErrorView::InvalidNackFormat(fmt))
        } else {
            Ok(
                NackPacketView {
                    sender_ssrc: octets::u32_at(s, 0),
                    media_ssrc: octets::u32_at(s, 4),
                    entries: NackEntriesView::from_pairs(
                        fmt,
                        common::pairs_at(s, 8, Self::entry_count(payload_len)),
                    ),
                },
            )
        }
    }
}

impl NackPacket {
    /// Parse from buffer (after common RTCP header has been read).
    /// `fmt` is the FMT field from the common header.
    /// `payload_len` is the number of bytes after the common header.
    pub fn parse(buf: &[u8], fmt: u8, payload_len: usize) -> (r: Result<Self, RistError>)
        requires
            buf@.len() >= 8 && (fmt == NACK_FMT_GENERIC || fmt == NACK_FMT_RANGE) ==> 8
                + NackPacketView::entry_count(payload_len as int) * 4 <= buf@.len(),
        ensures
            match r {
                Ok(p) => NackPacketView::parsed(buf@, fmt, payload_len as int) == Ok::<
                    NackPacketView,
                    RistErrorView,
                >(p@),
                Err(e) => NackPacketView::parsed(buf@, fmt, payload_len as int) == Err::<
                    NackPacketView,
                    RistErrorView,
                >(e@),
            },
    {
        if buf.len() < 8 {
            return Err(RistError::PacketTooShort { expected: 8, actual: buf.len() });
        }
        let mut r: &[u8] = buf;
        let sender_ssrc: u32 = octets::get_u32(&mut r);
        let media_ssrc: u32 = octets::get_u32(&mut r);
        let num_entries: usize = payload_len.saturating_sub(8) / 4;
        let ghost pairs = common::pairs_at(buf@, 8, num_entries as nat);
        let entries: NackEntries = match fmt {
            NACK_FMT_GENERIC => {
                let mut nacks: Vec<BitmaskNack> = Vec::with_capacity(num_entries);
                while nacks.len() < num_entries
                    invariant
                        nacks@.len() <= num_entries,
                        8 + num_entries * 4 <= buf@.len(),
                        r@ == buf@.skip((8 + nacks@.len() * 4) as int),
                        pairs == common::pairs_at(buf@, 8, num_entries as nat),
                        nacks@ == pairs.take(nacks@.len() as int).map_values(
                            |p: (u16, u16)| BitmaskNack { pid: p.0, blp: p.1 },
                        ),
                    decreases num_entries - nacks@.len(),
                {
                    let ghost done = nacks@.len() as int;
                    let pid: u16 = octets::get_u16(&mut r);
                    let blp: u16 = octets::get_u16(&mut r);
                    nacks.push(BitmaskNack { pid, blp });
                    proof {
                        assert(r@ =~= buf@.skip(8 + (done + 1) * 4));
                        assert(pairs[done] == (pid, blp));
                        assert(nacks@ =~= pairs.take(done + 1).map_values(
                            |p: (u16, u16)| BitmaskNack { pid: p.0, blp: p.1 },
                        ));
                    }
                }
                assert(pairs.take(num_entries as int) =~= pairs);
                NackEntries::Bitmask(nacks)
            },
            NACK_FMT_RANGE => {
                let mut nacks: Vec<RangeNack> = Vec::with_capacity(num_entries);
                while nacks.len() < num_entries
                    invariant
                        nacks@.len() <= num_entries,
                        8 + num_entries * 4 <= buf@.len(),
                        r@ == buf@.skip((8 + nacks@.len() * 4) as int),
                        pairs == common::pairs_at(buf@, 8, num_entries as nat),
                        nacks@ == pairs.take(nacks@.len() as int).map_values(
                            |p: (u16, u16)| RangeNack { start: p.0, extra: p.1 },
                        ),
                    decreases num_entries - nacks@.len(),
                {
                    let ghost done = nacks@.len() as int;
                    let start: u16 = octets::get_u16(&mut r);
                    let extra: u16 = octets::get_u16(&mut r);
                    nacks.push(RangeNack { start, extra });
                    proof {
                        assert(r@ =~= buf@.skip(8 + (done + 1) * 4));
                        assert(pairs[done] == (start, extra));
                        assert(nacks@ =~= pairs.take(done + 1).map_values(
                            |p: (u16, u16)| RangeNack { start: p.0, extra: p.1 },
                        ));
                    }
                }
                assert(pairs.take(num_entries as int) =~= pairs);
                NackEntries::Range(nacks)
            },
            _ => {
                return Err(RistError::InvalidNackFormat(fmt));
            },
        };
        Ok(NackPacket { sender_ssrc, media_ssrc, entries })
    }

    /// Serialize the full NACK packet including the common RTCP header.
    pub fn serialize(&self) -> (b: BytesMut)
        requires
            self@.wire().len() <= isize::MAX,
        ensures
            octets::written(b) == self@.wire(),
    {
        proof {
            law_nack_reads_back(self@);
        }
        let (fmt, entry_count): (u8, usize) = match &self.entries {
            NackEntries::Bitmask(v) => (NACK_FMT_GENERIC, v.len()),
            NackEntries::Range(v) => (NACK_FMT_RANGE, v.len()),
        };
        assert(0x80u8 | (fmt & 0x1F) == 0x80 + fmt % 32) by (bit_vector);
        let length_words: usize = 2 + entry_count;
        let total_size: usize = 4 + length_words * 4;
        let mut buf: BytesMut = octets::new_buffer(total_size);
        common::put_header(
            &mut buf,
            0x80 | (fmt & 0x1F),
            RTCP_PT_RTPFB,
            octets::low_word(length_words),
        );
        let ghost header = octets::written(buf);
        octets::put_u32(&mut buf, self.sender_ssrc);
        octets::put_u32(&mut buf, self.media_ssrc);
        let ghost head = octets::written(buf);
        let ghost pairs = self@.entries.pairs();
        let mut i: usize = 0;
        assert(head =~= head + common::pairs_wire(pairs.take(0)));
        while i < entry_count
            invariant
                i <= entry_count,
                entry_count == pairs.len(),
                pairs == self@.entries.pairs(),
                12 + pairs.len() * 4 <= isize::MAX,
                octets::written(buf) == head + common::pairs_wire(pairs.take(i as int)),
                octets::written(buf).len() == 12 + i * 4,
            decreases entry_count - i,
        {
            let (a, b): (u16, u16) = match &self.entries {
                NackEntries::Bitmask(nacks) => (nacks[i].pid, nacks[i].blp),
                NackEntries::Range(nacks) => (nacks[i].start, nacks[i].extra),
            };
            octets::put_u16(&mut buf, a);
            octets::put_u16(&mut buf, b);
            proof {
                common::lemma_pairs_push(head, pairs.take(i as int), (a, b));
                assert(pairs.take(i as int).push((a, b)) =~= pairs.take(i + 1));
            }
            i = i + 1;
        }
        assert(pairs.take(i as int) =~= pairs);
        assert(octets::written(buf) =~= header + self@.body());
        buf
    }
}

/// A serialized NACK reads back as it was.
pub proof fn law_nack_reads_back(p: NackPacketView)
    ensures
        NackPacketView::parsed(p.body(), p.entries.fmt(), p.body().len() as int) == Ok::<
            NackPacketView,
            RistErrorView,
        >(p),
        p.wire() == p.wire().take(4) + p.body(),
        p.wire().len() == 12 + p.entries.pairs().len() * 4,
{
    let s = p.body();
    let head = octets::be32(p.sender_ssrc) + octets::be32(p.media_ssrc);
    let pairs = p.entries.pairs();
    common::law_pairs_read_back(head, pairs);
    octets::law_be32_reads_back(s, 0, p.sender_ssrc);
    octets::law_be32_reads_back(s, 4, p.media_ssrc);
    assert(p.wire() =~= p.wire().take(4) + p.body());
    match p.entries {
        NackEntriesView::Bitmask(v) => {
            assert(pairs.map_values(|p: (u16, u16)| BitmaskNack { pid: p.0, blp: p.1 }) =~= v);
        },
        NackEntriesView::Range(v) => {
            assert(pairs.map_values(|p: (u16, u16)| RangeNack { start: p.0, extra: p.1 }) =~= v);
        },
    }
}

/// How many of the first numbers of `seqs` lie within 16 places after `pid`.
pub open spec fn covered(pid: u16, seqs: Seq<u16>) -> nat
    decreases seqs.len(),
{
    if seqs.len() == 0 || !(1 <= serial::ahead(pid, seqs[0]) <= 16) {
        0
    } else {
        1 + covered(pid, seqs.skip(1))
    }
}

/// The bitmask of `seqs`, all of which lie within 16 places after `pid`.
pub open spec fn mask(pid: u16, seqs: Seq<u16>) -> u16
    decreases seqs.len(),
{
    if seqs.len() == 0 {
        0
    } else {
        mask(pid, seqs.drop_last()) | (1u16 << ((serial::ahead(pid, seqs.last()) - 1) as u16))
    }
}

/// The bitmask entries for `seqs`: each takes the first number that is left,
/// and those right after it that its mask reaches.
pub open spec fn packed_bitmasks(seqs: Seq<u16>) -> Seq<BitmaskNack>
    decreases seqs.len(),
{
    if seqs.len() == 0 {
        Seq::empty()
    } else {
        let pid = seqs[0];
        let n = covered(pid, seqs.skip(1));
        let entry = BitmaskNack { pid, blp: mask(pid, seqs.subrange(1, n as int + 1)) };
        proof {
            lemma_covered(pid, seqs.skip(1));
        }
        seq![entry] + packed_bitmasks(seqs.skip(n as int + 1))
    }
}

/// How many of the first numbers of `seqs` carry on the run that has reached
/// `extra` places after `start`, as far as the count fits its field.
pub open spec fn run_on(start: u16, extra: int, seqs: Seq<u16>) -> nat
    decreases seqs.len(),
{
    if seqs.len() == 0 || extra >= 65_535 || seqs[0] != serial::plus(start, extra + 1) {
        0
    } else {
        1 + run_on(start, extra + 1, seqs.skip(1))
    }
}

/// The range entries for `seqs`: each takes the first number that is left, and
/// those that follow it without a gap.
pub open spec fn packed_ranges(seqs: Seq<u16>) -> Seq<RangeNack>
    decreases seqs.len(),
{
    if seqs.len() == 0 {
        Seq::empty()
    } else {
        let start = seqs[0];
        let n = run_on(start, 0, seqs.skip(1));
        proof {
            lemma_run_on(start, 0, seqs.skip(1));
        }
        seq![RangeNack { start, extra: n as u16 }] + packed_ranges(seqs.skip(n as int + 1))
    }
}

pub proof fn lemma_covered(pid: u16, seqs: Seq<u16>)
    ensures
        covered(pid, seqs) <= seqs.len(),
        forall|i: int|
            0 <= i < covered(pid, seqs) ==> 1 <= serial::ahead(pid, #[trigger] seqs[i]) <= 16,
        covered(pid, seqs) < seqs.len() ==> !(1 <= serial::ahead(
            pid,
            seqs[covered(pid, seqs) as int],
        ) <= 16),
    decreases seqs.len(),
{
    if seqs.len() > 0 && 1 <= serial::ahead(pid, seqs[0]) <= 16 {
        let rest = seqs.skip(1);
        lemma_covered(pid, rest);
        assert forall|i: int| 0 <= i < covered(pid, seqs) implies 1 <= serial::ahead(
            pid,
            #[trigger] seqs[i],
        ) <= 16 by {
            if i > 0 {
                assert(rest[i - 1] == seqs[i]);
            }
        }
    }
}

pub proof fn lemma_run_on(start: u16, extra: int, seqs: Seq<u16>)
    requires
        0 <= extra,
    ensures
        run_on(start, extra, seqs) <= seqs.len(),
        extra <= 65_535 ==> extra + run_on(start, extra, seqs) <= 65_535,
        forall|i: int|
            0 <= i < run_on(start, extra, seqs) ==> #[trigger] seqs[i] == serial::plus(
                start,
                extra + 1 + i,
            ),
    decreases seqs.len(),
{
    if seqs.len() > 0 && extra < 65_535 && seqs[0] == serial::plus(start, extra + 1) {
        let rest = seqs.skip(1);
        lemma_run_on(start, extra + 1, rest);
        assert forall|i: int| 0 <= i < run_on(start, extra, seqs) implies #[trigger] seqs[i]
            == serial::plus(start, extra + 1 + i) by {
            if i > 0 {
                assert(rest[i - 1] == seqs[i]);
            }
        }
    }
}

/// Builder that packs a list of lost sequence numbers into efficient NACK packets.
pub struct NackListBuilder {
    sender_ssrc: u32,
    media_ssrc: u32,
}

impl NackListBuilder {
    /// The SSRC that requests carry as their sender.
    pub closed spec fn sender_ssrc(&self) -> u32 {
        self.sender_ssrc
    }

    /// The SSRC of the media that requests are for.
    pub closed spec fn media_ssrc(&self) -> u32 {
        self.media_ssrc
    }

    pub fn new(sender_ssrc: u32, media_ssrc: u32) -> (b: Self)
        ensures
            b.sender_ssrc() == sender_ssrc,
            b.media_ssrc() == media_ssrc,
    {
        Self { sender_ssrc, media_ssrc }
    }

    /// Build bitmask NACKs from a sorted list of lost sequence numbers.
    pub fn build_bitmask(&self, lost_seqs: &[u16]) -> (p: NackPacket)
        ensures
            p@ == (NackPacketView {
                sender_ssrc: self.sender_ssrc(),
                media_ssrc: self.media_ssrc(),
                entries: NackEntriesView::Bitmask(packed_bitmasks(lost_seqs@)),
            }),
    {
        let mut nacks: Vec<BitmaskNack> = Vec::new();
        let mut i: usize = 0;
        assert(lost_seqs@.skip(0) =~= lost_seqs@);
        while i < lost_seqs.len()
            invariant
                i <= lost_seqs@.len(),
                nacks@ + packed_bitmasks(lost_seqs@.skip(i as int)) == packed_bitmasks(lost_seqs@),
            decreases lost_seqs@.len() - i,
        {
            let pid: u16 = lost_seqs[i];
            let mut blp: u16 = 0;
            let ghost first = i as int;
            let ghost left = lost_seqs@.skip(first);
            let ghost after = left.skip(1);
            proof {
                lemma_covered(pid, after);
                assert(after.take(0) =~= Seq::<u16>::empty());
            }
            i = i + 1;
            while i < lost_seqs.len() && lost_seqs[i].wrapping_sub(pid) >= 1
                && lost_seqs[i].wrapping_sub(pid) <= 16
                invariant
                    0 <= first < i <= lost_seqs@.len(),
                    after == lost_seqs@.skip(first).skip(1),
                    i - first - 1 <= covered(pid, after) <= after.len(),
                    forall|k: int|
                        0 <= k < covered(pid, after) ==> 1 <= serial::ahead(
                            pid,
                            #[trigger] after[k],
                        ) <= 16,
                    covered(pid, after) < after.len() ==> !(1 <= serial::ahead(
                        pid,
                        after[covered(pid, after) as int],
                    ) <= 16),
                    blp == mask(pid, after.take(i - first - 1)),
                decreases lost_seqs@.len() - i,
            {
                let diff: u16 = lost_seqs[i].wrapping_sub(pid);
                proof {
                    let k = i - first - 1;
                    assert(after[k] == lost_seqs@[i as int]);
                    assert(diff == serial::ahead(pid, after[k]));
                    assert(after.take(k + 1).drop_last() =~= after.take(k));
                }
                blp = blp | (1u16 << (diff - 1));
                i = i + 1;
            }
            proof {
                let n = covered(pid, after);
                let k = i - first - 1;
                if k < n {
                    assert(after[k] == lost_seqs@[i as int]);
                }
                assert(k == n);
                assert(left.subrange(1, n as int + 1) =~= after.take(n as int));
                assert(left.skip(n as int + 1) =~= lost_seqs@.skip(i as int));
                let entry = BitmaskNack { pid, blp };
                assert(nacks@ + (seq![entry] + packed_bitmasks(lost_seqs@.skip(i as int)))
                    =~= nacks@.push(entry) + packed_bitmasks(lost_seqs@.skip(i as int)));
            }
            nacks.push(BitmaskNack { pid, blp });
        }
        assert(nacks@ =~= packed_bitmasks(lost_seqs@)) by {
            assert(lost_seqs@.skip(i as int).len() == 0);
        }
        NackPacket {
            sender_ssrc: self.sender_ssrc,
            media_ssrc: self.media_ssrc,
            entries: NackEntries::Bitmask(nacks),
        }
    }

    /// Build range NACKs from a sorted list of lost sequence numbers.
    pub fn build_range(&self, lost_seqs: &[u16]) -> (p: NackPacket)
        ensures
            p@ == (NackPacketView {
                sender_ssrc: self.sender_ssrc(),
                media_ssrc: self.media_ssrc(),
                entries: NackEntriesView::Range(packed_ranges(lost_seqs@)),
            }),
    {
        let mut nacks: Vec<RangeNack> = Vec::new();
        let mut i: usize = 0;
        assert(lost_seqs@.skip(0) =~= lost_seqs@);
        while i < lost_seqs.len()
            invariant
                i <= lost_seqs@.len(),
                nacks@ + packed_ranges(lost_seqs@.skip(i as int)) == packed_ranges(lost_seqs@),
            decreases lost_seqs@.len() - i,
        {
            let start: u16 = lost_seqs[i];
            let mut extra: u16 = 0;
            let ghost first = i as int;
            let ghost left = lost_seqs@.skip(first);
            let ghost after = left.skip(1);
            proof {
                lemma_run_on(start, 0, after);
                assert(after.skip(0) =~= after);
            }
            i = i + 1;
            while i < lost_seqs.len() && extra < 65_535 && lost_seqs[i] == start.wrapping_add(
                extra + 1,
            )
                invariant
                    0 <= first < i <= lost_seqs@.len(),
                    extra == i - first - 1,
                    after == lost_seqs@.skip(first).skip(1),
                    run_on(start, 0, after) == extra + run_on(
                        start,
                        extra as int,
                        after.skip(extra as int),
                    ),
                decreases lost_seqs@.len() - i,
            {
                proof {
                    let rest = after.skip(extra as int);
                    assert(rest[0] == lost_seqs@[i as int]);
                    assert(rest.skip(1) =~= after.skip(extra + 1));
                }
                extra = extra + 1;
                i = i + 1;
            }
            proof {
                let rest = after.skip(extra as int);
                if i < lost_seqs@.len() {
                    assert(rest[0] == lost_seqs@[i as int]);
                }
                assert(run_on(start, extra as int, rest) == 0);
                assert(left.skip(extra + 1) =~= lost_seqs@.skip(i as int));
                let entry = RangeNack { start, extra };
                assert(nacks@ + (seq![entry] + packed_ranges(lost_seqs@.skip(i as int)))
                    =~= nacks@.push(entry) + packed_ranges(lost_seqs@.skip(i as int)));
            }
            nacks.push(RangeNack { start, extra });
        }
        assert(nacks@ =~= packed_ranges(lost_seqs@)) by {
            assert(lost_seqs@.skip(i as int).len() == 0);
        }
        NackPacket {
            sender_ssrc: self.sender_ssrc,
            media_ssrc: self.media_ssrc,
            entries: NackEntries::Range(nacks),
        }
    }
}

/// No more entries are built than there are numbers on the list.
pub proof fn lemma_packed_len(seqs: Seq<u16>)
    ensures
        packed_bitmasks(seqs).len() <= seqs.len(),
    decreases seqs.len(),
{
    if seqs.len() > 0 {
        let n = covered(seqs[0], seqs.skip(1));
        lemma_covered(seqs[0], seqs.skip(1));
        lemma_packed_len(seqs.skip(n as int + 1));
    }
}

proof fn lemma_set_bit(m: u16, k: u16, i: u16)
    requires
        k < 16,
        i < 16,
    ensures
        ((m | (1u16 << k)) >> i) & 1 == 1 <==> i == k || (m >> i) & 1 == 1,
        (0u16 >> i) & 1 != 1,
{
    assert(((m | (1u16 << k)) >> i) & 1 == 1 <==> i == k || (m >> i) & 1 == 1) by (bit_vector)
        requires
            k < 16,
            i < 16,
    ;
    assert((0u16 >> i) & 1 != 1) by (bit_vector)
        requires
            i < 16,
    ;
}

proof fn lemma_mask(pid: u16, seqs: Seq<u16>, seq: u16)
    requires
        forall|i: int| 0 <= i < seqs.len() ==> 1 <= serial::ahead(pid, #[trigger] seqs[i]) <= 16,
        1 <= serial::ahead(pid, seq) <= 16,
    ensures
        has_bit(mask(pid, seqs), serial::ahead(pid, seq) - 1) <==> seqs.contains(seq),
    decreases seqs.len(),
{
    let i = (serial::ahead(pid, seq) - 1) as u16;
    if seqs.len() == 0 {
        lemma_set_bit(0, 0, i);
    } else {
        let shorter = seqs.drop_last();
        let k = (serial::ahead(pid, seqs.last()) - 1) as u16;
        assert forall|j: int| 0 <= j < shorter.len() implies 1 <= serial::ahead(
            pid,
            #[trigger] shorter[j],
        ) <= 16 by {
            assert(shorter[j] == seqs[j]);
        }
        lemma_mask(pid, shorter, seq);
        lemma_set_bit(mask(pid, shorter), k, i);
        if seqs.contains(seq) {
            let j = choose|j: int| 0 <= j < seqs.len() && seqs[j] == seq;
            if j < shorter.len() {
                assert(shorter[j] == seq);
            }
        }
        if shorter.contains(seq) {
            let j = choose|j: int| 0 <= j < shorter.len() && shorter[j] == seq;
            assert(seqs[j] == seq);
        }
        if i == k {
            assert(seqs[seqs.len() - 1] == seq);
        }
    }
}

/// What one of the entries after `entry` names, or `entry` itself.
proof fn lemma_named_by_first_or_rest(
    entry: BitmaskNack,
    others: Seq<BitmaskNack>,
    seq: u16,
)
    ensures
        ({
            let all = seq![entry] + others;
            (exists|k: int| 0 <= k < all.len() && (#[trigger] all[k]).names(seq)) <==> entry.names(
                seq,
            ) || exists|k: int| 0 <= k < others.len() && (#[trigger] others[k]).names(seq)
        }),
{
    let all = seq![entry] + others;
    assert(all[0] == entry);
    if exists|k: int| 0 <= k < all.len() && (#[trigger] all[k]).names(seq) {
        let k = choose|k: int| 0 <= k < all.len() && (#[trigger] all[k]).names(seq);
        if k > 0 {
            assert(others[k - 1] == all[k]);
        }
    }
    if exists|k: int| 0 <= k < others.len() && (#[trigger] others[k]).names(seq) {
        let k = choose|k: int| 0 <= k < others.len() && (#[trigger] others[k]).names(seq);
        assert(all[k + 1] == others[k]);
    }
}

/// The first entry built for a list names the numbers that it takes from it.
proof fn lemma_first_entry_names(pid: u16, run: Seq<u16>, seq: u16)
    requires
        forall|i: int| 0 <= i < run.len() ==> 1 <= serial::ahead(pid, #[trigger] run[i]) <= 16,
    ensures
        (BitmaskNack { pid, blp: mask(pid, run) }).names(seq) <==> seq == pid || run.contains(seq),
{
    let d = serial::ahead(pid, seq);
    serial::law_steps_and_distance(pid, seq, 0);
    if 1 <= d <= 16 {
        lemma_mask(pid, run, seq);
    } else if run.contains(seq) {
        let i = choose|i: int| 0 <= i < run.len() && run[i] == seq;
        assert(1 <= serial::ahead(pid, run[i]) <= 16);
    }
}

/// The bitmask entries built for a list name exactly the numbers on the list.
pub proof fn law_bitmasks_name_the_list(seqs: Seq<u16>, seq: u16)
    ensures
        seqs.contains(seq) <==> exists|k: int|
            0 <= k < packed_bitmasks(seqs).len() && (#[trigger] packed_bitmasks(seqs)[k]).names(
                seq,
            ),
    decreases seqs.len(),
{
    if seqs.len() > 0 {
        let pid = seqs[0];
        let after = seqs.skip(1);
        let n = covered(pid, after);
        let run = seqs.subrange(1, n as int + 1);
        let rest = seqs.skip(n as int + 1);
        let entry = BitmaskNack { pid, blp: mask(pid, run) };
        lemma_covered(pid, after);
        assert forall|i: int| 0 <= i < run.len() implies 1 <= serial::ahead(
            pid,
            #[trigger] run[i],
        ) <= 16 by {
            assert(run[i] == after[i]);
        }
        lemma_first_entry_names(pid, run, seq);
        lemma_named_by_first_or_rest(entry, packed_bitmasks(rest), seq);
        law_bitmasks_name_the_list(rest, seq);
        assert(packed_bitmasks(seqs) == seq![entry] + packed_bitmasks(rest));
        assert(seqs[0] == pid);
        assert(seqs.contains(seq) <==> seq == pid || run.contains(seq) || rest.contains(seq)) by {
            if seqs.contains(seq) {
                let j = choose|j: int| 0 <= j < seqs.len() && seqs[j] == seq;
                if 1 <= j <= n {
                    assert(run[j - 1] == seq);
                } else if j > n {
                    assert(rest[j - n - 1] == seq);
                }
            }
            if run.contains(seq) {
                let j = choose|j: int| 0 <= j < run.len() && run[j] == seq;
                assert(seqs[j + 1] == seq);
            }
            if rest.contains(seq) {
                let j = choose|j: int| 0 <= j < rest.len() && rest[j] == seq;
                assert(seqs[j + n + 1] == seq);
            }
        }
    }
}

/// The range entries built for a list name exactly the numbers on the list.
pub proof fn law_ranges_name_the_list(seqs: Seq<u16>, seq: u16)
    ensures
        seqs.contains(seq) <==> exists|k: int|
            0 <= k < packed_ranges(seqs).len() && (#[trigger] packed_ranges(seqs)[k]).names(seq),
    decreases seqs.len(),
{
    if seqs.len() > 0 {
        let start = seqs[0];
        let after = seqs.skip(1);
        let n = run_on(start, 0, after);
        let rest = seqs.skip(n as int + 1);
        let entry = RangeNack { start, extra: n as u16 };
        lemma_run_on(start, 0, after);
        law_ranges_name_the_list(rest, seq);
        let all = packed_ranges(seqs);
        let others = packed_ranges(rest);
        assert(all == seq![entry] + others);
        assert(all[0] == entry);
        if seqs.contains(seq) {
            let j = choose|j: int| 0 <= j < seqs.len() && seqs[j] == seq;
            if j <= n {
                if j > 0 {
                    assert(after[j - 1] == seq);
                }
                serial::law_steps_and_distance(start, seq, 0);
                lemma_ahead_of_plus(start, j);
                assert(all[0].names(seq));
            } else {
                assert(rest[j - n - 1] == seq);
                let k = choose|k: int|
                    0 <= k < others.len() && (#[trigger] others[k]).names(seq);
                assert(all[k + 1] == others[k]);
            }
        }
        if exists|k: int| 0 <= k < all.len() && (#[trigger] all[k]).names(seq) {
            let k = choose|k: int| 0 <= k < all.len() && (#[trigger] all[k]).names(seq);
            if k == 0 {
                let j = serial::ahead(start, seq);
                serial::law_steps_and_distance(start, seq, 0);
                if j > 0 {
                    assert(after[j - 1] == serial::plus(start, j));
                }
                assert(seqs[j] == seq);
            } else {
                assert(others[k - 1] == all[k]);
                let j = choose|j: int| 0 <= j < rest.len() && rest[j] == seq;
                assert(seqs[j + n + 1] == seq);
            }
        }
    }
}

proof fn lemma_ahead_of_plus(start: u16, j: int)
    requires
        0 <= j < 65_536,
    ensures
        serial::ahead(start, serial::plus(start, j)) == j,
        serial::plus(start, 0) == start,
{
}

/// A bitmask entry's list holds exactly the numbers that the entry names.
pub proof fn law_bitmask_lists_what_it_names(entry: BitmaskNack, seq: u16)
    ensures
        entry.lost().contains(seq) <==> entry.names(seq),
{
    lemma_lost_within(entry, 16, seq);
}

proof fn lemma_lost_within(entry: BitmaskNack, n: nat, seq: u16)
    requires
        n <= 16,
    ensures
        entry.lost_within(n).contains(seq) <==> entry.names(seq) && serial::ahead(entry.pid, seq)
            <= n,
    decreases n,
{
    let list = entry.lost_within(n);
    if n == 0 {
        assert(list[0] == entry.pid);
        if serial::ahead(entry.pid, seq) == 0 {
            serial::law_steps_and_distance(entry.pid, seq, 0);
        }
    } else {
        let nearer = entry.lost_within((n - 1) as nat);
        lemma_lost_within(entry, (n - 1) as nat, seq);
        lemma_ahead_of_plus(entry.pid, n as int);
        serial::law_steps_and_distance(entry.pid, seq, 0);
        if has_bit(entry.blp, n - 1) {
            let last = serial::plus(entry.pid, n as int);
            assert(list == nearer.push(last));
            assert(list[nearer.len() as int] == last);
            if nearer.contains(seq) {
                let j = choose|j: int| 0 <= j < nearer.len() && nearer[j] == seq;
                assert(list[j] == seq);
            }
            if list.contains(seq) {
                let j = choose|j: int| 0 <= j < list.len() && list[j] == seq;
                if j < nearer.len() {
                    assert(nearer[j] == seq);
                }
            }
        }
    }
}

/// A range entry's list holds exactly the numbers that the entry names.
pub proof fn law_range_lists_what_it_names(entry: RangeNack, seq: u16)
    ensures
        entry.lost().contains(seq) <==> entry.names(seq),
{
    let d = serial::ahead(entry.start, seq);
    serial::law_steps_and_distance(entry.start, seq, 0);
    if entry.names(seq) {
        assert(entry.lost()[d] == seq);
    }
    if entry.lost().contains(seq) {
        let j = choose|j: int| 0 <= j < entry.lost().len() && entry.lost()[j] == seq;
        lemma_ahead_of_plus(entry.start, j);
    }
}

/// The numbers on a list of lists, one after another.
pub open spec fn flat(lists: Seq<Seq<u16>>) -> Seq<u16>
    decreases lists.len(),
{
    if lists.len() == 0 {
        Seq::empty()
    } else {
        flat(lists.drop_last()) + lists.last()
    }
}

/// The numbers that each of the entries names.
pub open spec fn lost_lists(entries: Seq<BitmaskNack>) -> Seq<Seq<u16>> {
    entries.map_values(|e: BitmaskNack| e.lost())
}

/// The numbers that each of the entries names.
pub open spec fn range_lists(entries: Seq<RangeNack>) -> Seq<Seq<u16>> {
    entries.map_values(|e: RangeNack| e.lost())
}

proof fn lemma_flat_cons(first: Seq<u16>, rest: Seq<Seq<u16>>)
    ensures
        flat(seq![first] + rest) == first + flat(rest),
    decreases rest.len(),
{
    let all = seq![first] + rest;
    if rest.len() == 0 {
        assert(flat(all.drop_last()) =~= Seq::empty());
        assert(flat(rest) =~= Seq::empty());
        assert(all.last() == first);
        assert(flat(all) =~= first + flat(rest));
    } else {
        lemma_flat_cons(first, rest.drop_last());
        assert(all.drop_last() =~= seq![first] + rest.drop_last());
        assert(all.last() == rest.last());
        assert(flat(all) =~= first + flat(rest));
    }
}

/// The bitmask entries of an ascending list name its numbers in the list's
/// order, each once.
pub proof fn law_bitmasks_keep_the_order(seqs: Seq<u16>)
    requires
        forall|i: int, j: int| 0 <= i < j < seqs.len() ==> seqs[i] < seqs[j],
    ensures
        flat(lost_lists(packed_bitmasks(seqs))) == seqs,
    decreases seqs.len(),
{
    if seqs.len() == 0 {
        assert(flat(lost_lists(packed_bitmasks(seqs))) =~= seqs);
    } else {
        let pid = seqs[0];
        let after = seqs.skip(1);
        let n = covered(pid, after) as int;
        let run = seqs.subrange(1, n + 1);
        let rest = seqs.skip(n + 1);
        let entry = BitmaskNack { pid, blp: mask(pid, run) };
        lemma_covered(pid, after);
        assert forall|i: int| 0 <= i < run.len() implies 1 <= serial::ahead(
            pid,
            #[trigger] run[i],
        ) <= 16 && serial::ahead(pid, run[i]) == run[i] - pid by {
            assert(run[i] == after[i]);
            assert(seqs[0] < seqs[i + 1]);
        }
        let k = lemma_lost_is_the_run(entry, run, 16);
        assert(k == run.len()) by {
            if k < run.len() {
                assert(serial::ahead(pid, run[k as int]) <= 16);
            }
        }
        assert(run.take(k as int) =~= run);
        law_bitmasks_keep_the_order(rest);
        let others = packed_bitmasks(rest);
        assert(lost_lists(seq![entry] + others) =~= seq![entry.lost()] + lost_lists(others));
        lemma_flat_cons(entry.lost(), lost_lists(others));
        assert(seq![pid] + run + rest =~= seqs);
    }
}

/// The range entries of any list name its numbers in the list's order.
pub proof fn law_ranges_keep_the_order(seqs: Seq<u16>)
    ensures
        flat(range_lists(packed_ranges(seqs))) == seqs,
    decreases seqs.len(),
{
    if seqs.len() == 0 {
        assert(flat(range_lists(packed_ranges(seqs))) =~= seqs);
    } else {
        let start = seqs[0];
        let after = seqs.skip(1);
        let n = run_on(start, 0, after) as int;
        let rest = seqs.skip(n + 1);
        let entry = RangeNack { start, extra: n as u16 };
        lemma_run_on(start, 0, after);
        law_ranges_keep_the_order(rest);
        assert(entry.lost() =~= seqs.take(n + 1)) by {
            assert forall|i: int| 0 <= i <= n implies entry.lost()[i] == seqs[i] by {
                if i > 0 {
                    assert(after[i - 1] == seqs[i]);
                }
            }
        }
        let others = packed_ranges(rest);
        assert(range_lists(seq![entry] + others) =~= seq![entry.lost()] + range_lists(others));
        lemma_flat_cons(entry.lost(), range_lists(others));
        assert(seqs.take(n + 1) + rest =~= seqs);
    }
}

/// An entry made from a run in ascending order lists the run, as far as `n`
/// places reach.
proof fn lemma_lost_is_the_run(entry: BitmaskNack, run: Seq<u16>, n: nat) -> (k: nat)
    requires
        n <= 16,
        entry.blp == mask(entry.pid, run),
        forall|i: int|
            0 <= i < run.len() ==> 1 <= serial::ahead(entry.pid, #[trigger] run[i]) <= 16
                && serial::ahead(entry.pid, run[i]) == run[i] - entry.pid,
        forall|i: int, j: int| 0 <= i < j < run.len() ==> run[i] < run[j],
    ensures
        k <= run.len(),
        entry.lost_within(n) == seq![entry.pid] + run.take(k as int),
        forall|i: int| 0 <= i < k ==> serial::ahead(entry.pid, #[trigger] run[i]) <= n,
        forall|i: int| k <= i < run.len() ==> serial::ahead(entry.pid, #[trigger] run[i]) > n,
    decreases n,
{
    let pid = entry.pid;
    if n == 0 {
        assert(entry.lost_within(0) =~= seq![pid] + run.take(0));
        0
    } else {
        let k = lemma_lost_is_the_run(entry, run, (n - 1) as nat);
        let seq = serial::plus(pid, n as int);
        lemma_ahead_of_plus(pid, n as int);
        lemma_mask(pid, run, seq);
        if k < run.len() && serial::ahead(pid, run[k as int]) == n {
            serial::law_steps_and_distance(pid, run[k as int], 0);
            assert(run[k as int] == seq);
            assert(run.contains(seq));
            assert(entry.lost_within(n) =~= seq![pid] + run.take(k as int + 1));
            assert forall|i: int| k + 1 <= i < run.len() implies serial::ahead(
                pid,
                #[trigger] run[i],
            ) > n by {
                assert(run[k as int] < run[i]);
            }
            k + 1
        } else {
            assert(!run.contains(seq)) by {
                if run.contains(seq) {
                    let i = choose|i: int| 0 <= i < run.len() && run[i] == seq;
                    assert(serial::ahead(pid, run[i]) == n);
                    if i > k {
                        assert(run[k as int] < run[i]);
                    }
                }
            }
            k
        }
    }
}

/// The numbers of a bitmask entry by its bits: the first number, and the one
/// `d` places on for each bit of weight 2^(d-1) that is set, up to 16 places.
pub proof fn law_bitmask_numbers_by_bits(entry: BitmaskNack, d: int)
    requires
        0 <= d < 65_536,
    ensures
        entry.lost().len() > 0 && entry.lost()[0] == entry.pid,
        ({
            let named = entry.lost().contains(((entry.pid + d) % 65_536) as u16);
            &&& d == 0 ==> named
            &&& 1 <= d <= 16 ==> (named <==> entry.blp as int / vstd::arithmetic::power2::pow2(
                (d - 1) as nat,
            ) as int % 2 == 1)
            &&& d > 16 ==> !named
        }),
{
    let seq = serial::plus(entry.pid, d);
    lemma_ahead_of_plus(entry.pid, d);
    law_bitmask_lists_what_it_names(entry, seq);
    lemma_lost_starts(entry, 16);
    if 1 <= d <= 16 {
        let shift = (d - 1) as u16;
        let blp = entry.blp;
        vstd::bits::lemma_u16_shr_is_div(blp, shift);
        let x = blp >> shift;
        assert(x & 1 == x % 2) by (bit_vector);
    }
}

proof fn lemma_lost_starts(entry: BitmaskNack, n: nat)
    ensures
        entry.lost_within(n).len() > 0,
        entry.lost_within(n)[0] == entry.pid,
    decreases n,
{
    if n > 0 {
        lemma_lost_starts(entry, (n - 1) as nat);
    }
}

/// The numbers of a range entry: one more than it counts, from its start on.
pub proof fn law_range_numbers(entry: RangeNack, i: int)
    requires
        0 <= i <= entry.extra,
    ensures
        entry.lost().len() == entry.extra + 1,
        entry.lost()[i] == (entry.start + i) % 65_536,
{
}

/// The entries built for a list ask for each number on it, and for no other.
pub proof fn law_built_entries_ask_for_the_list(seqs: Seq<u16>, seq: u16)
    ensures
        seqs.contains(seq) <==> exists|k: int|
            0 <= k < packed_bitmasks(seqs).len()
                && (#[trigger] packed_bitmasks(seqs)[k]).lost().contains(seq),
        seqs.contains(seq) <==> exists|k: int|
            0 <= k < packed_ranges(seqs).len() && (#[trigger] packed_ranges(
                seqs,
            )[k]).lost().contains(seq),
{
    law_bitmasks_name_the_list(seqs, seq);
    law_ranges_name_the_list(seqs, seq);
    assert forall|k: int| 0 <= k < packed_bitmasks(seqs).len() implies (
    #[trigger] packed_bitmasks(seqs)[k]).lost().contains(seq) == packed_bitmasks(seqs)[k].names(
        seq,
    ) by {
        law_bitmask_lists_what_it_names(packed_bitmasks(seqs)[k], seq);
    }
    assert forall|k: int| 0 <= k < packed_ranges(seqs).len() implies (#[trigger] packed_ranges(
        seqs,
    )[k]).lost().contains(seq) == packed_ranges(seqs)[k].names(seq) by {
        law_range_lists_what_it_names(packed_ranges(seqs)[k], seq);
    }
}

} // verus!
