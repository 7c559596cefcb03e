//! RTCP Receiver Report (RR) packet (RFC 3550 Section 6.4.2).
//!
//! RIST RR packets have RC=1 (one report block) and length=7.
//! An empty RR (RC=0, length=1) may be sent by senders instead of SR.
//! See TR-06-1:2020 Sections 5.2.3 and 5.2.4.

use bytes::BytesMut;
use vstd::prelude::*;

use crate::error::{RistError, RistErrorView};
use crate::octets;
use crate::packet::common;

verus! {

broadcast use {octets::lemma_be16_len, octets::lemma_be32_len};

/// RTCP packet type for Receiver Report.
pub const RTCP_PT_RR: u8 = 201;

/// Reception report block (24 bytes per block).
#[derive(Debug, Clone, Copy, PartialEq, Eq, Structural)]
pub struct ReportBlock {
    /// SSRC of the source this report is about.
    pub ssrc: u32,
    /// Fraction of packets lost since the last report (8-bit fixed point).
    pub fraction_lost: u8,
    /// Cumulative number of packets lost (24-bit signed).
    pub cumulative_lost: i32,
    /// Extended highest sequence number received.
    pub extended_highest_seq: u32,
    /// Interarrival jitter (in RTP timestamp units).
    pub jitter: u32,
    /// Last SR timestamp (compact NTP format, middle 32 bits).
    pub last_sr: u32,
    /// Delay since last SR (in 1/65536 seconds).
    pub delay_since_last_sr: u32,
}

impl ReportBlock {
    /// Size of one report block in bytes.
    pub const SIZE: usize = 24;

    /// Whether the cumulative loss fits its 24 bits.
    pub open spec fn fits(self) -> bool {
        -0x80_0000 <= self.cumulative_lost < 0x80_0000
    }

    /// The word of both loss fields: eight bits of the fraction, then 24 of
    /// the count in two's complement.
    pub open spec fn lost_word(self) -> u32 {
        (self.fraction_lost * 0x100_0000 + self.cumulative_lost as int % 0x100_0000) as u32
    }

    /// The 24-bit two's complement integer in the low bits of `word`.
    pub open spec fn signed_low_24(word: u32) -> int {
        let low = word as int % 0x100_0000;
        if low < 0x80_0000 {
            low
        } else {
            low - 0x100_0000
        }
    }

    /// The 24 bytes of the block.
    pub open spec fn wire(self) -> Seq<u8> {
        octets::be32(self.ssrc) + octets::be32(self.lost_word()) + octets::be32(
            self.extended_highest_seq,
        ) + octets::be32(self.jitter) + octets::be32(self.last_sr) + octets::be32(
            self.delay_since_last_sr,
        )
    }

    /// The block at offset `at` of `s`.
    pub open spec fn read(s: Seq<u8>, at: int) -> ReportBlock {
        let word = octets::u32_at(s, at + 4);
        ReportBlock {
            ssrc: octets::u32_at(s, at),
            fraction_lost: (word / 0x100_0000) as u8,
            cumulative_lost: Self::signed_low_24(word) as i32,
            extended_highest_seq: octets::u32_at(s, at + 8),
            jitter: octets::u32_at(s, at + 12),
            last_sr: octets::u32_at(s, at + 16),
            delay_since_last_sr: octets::u32_at(s, at + 20),
        }
    }

    /// The block at the front of `s`, or why there is none.
    pub open spec fn parsed(s: Seq<u8>) -> Result<ReportBlock, RistErrorView> {
        if s.len() < Self::SIZE {
            Err(
                RistErrorView::PacketTooShort {
                    expected: Self::SIZE as int,
                    actual: s.len() as int,
                },
            )
        } else {
            Ok(Self::read(s, 0))
        }
    }

    /// Parse a report block from buffer.
    pub fn parse(buf: &[u8]) -> (r: Result<Self, RistError>)
        ensures
            match r {
                Ok(b) => Self::parsed(buf@) == Ok::<ReportBlock, RistErrorView>(b),
                Err(e) => Self::parsed(buf@) == Err::<ReportBlock, RistErrorView>(e@),
            },
    {
        if buf.len() < Self::SIZE {
            return Err(RistError::PacketTooShort { expected: Self::SIZE, actual: buf.len() });
        }
        let mut r: &[u8] = buf;
        let ssrc: u32 = octets::get_u32(&mut r);
        let lost_word: u32 = octets::get_u32(&mut r);
        assert(lost_word >> 24 == lost_word / 0x100_0000 && lost_word & 0x00FF_FFFF == lost_word
            % 0x100_0000) by (bit_vector);
        let fraction_lost: u8 = (lost_word >> 24) as u8;
        let cumulative_raw: i32 = (lost_word & 0x00FF_FFFF) as i32;
        let cumulative_lost: i32 = if cumulative_raw >= 0x80_0000 {
            cumulative_raw - 0x100_0000
        } else {
            cumulative_raw
        };
        let extended_highest_seq: u32 = octets::get_u32(&mut r);
        let jitter: u32 = octets::get_u32(&mut r);
        let last_sr: u32 = octets::get_u32(&mut r);
        let delay_since_last_sr: u32 = octets::get_u32(&mut r);
        Ok(
            ReportBlock {
                ssrc,
                fraction_lost,
                cumulative_lost,
                extended_highest_seq,
                jitter,
                last_sr,
                delay_since_last_sr,
            },
        )
    }

    /// Append the block to a buffer.
    pub fn serialize(&self, buf: &mut BytesMut)
        requires
            octets::written(*old(buf)).len() + ReportBlock::SIZE <= isize::MAX,
        ensures
            octets::written(*final(buf)) == octets::written(*old(buf)) + self.wire(),
    {
        octets::put_u32(buf, self.ssrc);
        let fraction: u32 = self.fraction_lost as u32;
        let lost: u32 = if self.cumulative_lost >= 0 {
            self.cumulative_lost as u32
        } else {
            (self.cumulative_lost as i64 + 0x1_0000_0000) as u32
        };
        assert((fraction << 24) | (lost & 0x00FF_FFFF) == fraction * 0x100_0000 + lost
            % 0x100_0000) by (bit_vector)
            requires
                fraction < 256,
        ;
        let lost_word: u32 = (fraction << 24) | (lost & 0x00FF_FFFF);
        assert(lost_word == self.lost_word());
        octets::put_u32(buf, lost_word);
        octets::put_u32(buf, self.extended_highest_seq);
        octets::put_u32(buf, self.jitter);
        octets::put_u32(buf, self.last_sr);
        octets::put_u32(buf, self.delay_since_last_sr);
        assert(octets::written(*buf) =~= octets::written(*old(buf)) + self.wire());
    }
}

/// RIST Receiver Report. RC=1 for normal reports, RC=0 for empty.
#[derive(Debug, PartialEq, Eq)]
pub struct ReceiverReport {
    /// SSRC of the receiver sending this report.
    pub ssrc: u32,
    /// Report blocks (0 or 1 for RIST).
    pub reports: Vec<ReportBlock>,
}

/// A [`ReceiverReport`] with its blocks as a sequence.
#[verifier::ext_equal]
pub struct ReceiverReportView {
    pub ssrc: u32,
    pub reports: Seq<ReportBlock>,
}

impl View for ReceiverReport {
    type V = ReceiverReportView;

    open spec fn view(&self) -> ReceiverReportView {
        ReceiverReportView { ssrc: self.ssrc, reports: self.reports@ }
    }
}

impl Clone for ReceiverReport {
    fn clone(&self) -> (r: Self)
        ensures
            r@ == self@,
    {
        let reports: Vec<ReportBlock> = self.reports.clone();
        assert(reports@ =~= self.reports@);
        ReceiverReport { ssrc: self.ssrc, reports }
    }
}

impl ReceiverReportView {
    /// Whether the block count fits its 5 bits, and each block its fields.
    pub open spec fn fits(self) -> bool {
        &&& self.reports.len() < 32
        &&& forall|i: int| 0 <= i < self.reports.len() ==> (#[trigger] self.reports[i]).fits()
    }

    /// The bytes of the blocks, one after another.
    pub open spec fn blocks_wire(blocks: Seq<ReportBlock>) -> Seq<u8>
        decreases blocks.len(),
    {
        if blocks.len() == 0 {
            Seq::empty()
        } else {
            Self::blocks_wire(blocks.drop_last()) + blocks.last().wire()
        }
    }

    /// The bytes after the common header.
    pub open spec fn body(self) -> Seq<u8> {
        octets::be32(self.ssrc) + Self::blocks_wire(self.reports)
    }

    /// The packet with its common header. The count stands there modulo 32,
    /// and in the length modulo 256.
    pub open spec fn wire(self) -> Seq<u8> {
        let n = self.reports.len();
        common::header_wire((0x80 + n % 32) as u8, RTCP_PT_RR, (1 + n % 256 * 6) as u16)
            + self.body()
    }

    /// The report with `rc` blocks in `s`, which starts past the common
    /// header, or why there is none.
    pub open spec fn parsed(s: Seq<u8>, rc: u8) -> Result<ReceiverReportView, RistErrorView> {
        if s.len() < 4 {
            Err(RistErrorView::PacketTooShort { expected: 4, actual: s.len() as int })
        } else if s.len() < 4 + rc * ReportBlock::SIZE {
            Err(
                RistErrorView::PacketTooShort {
                    expected: ReportBlock::SIZE as int,
                    actual: (s.len() - 4) % 24,
                },
            )
        } else {
            Ok(
                ReceiverReportView {
                    ssrc: octets::u32_at(s, 0),
                    reports: Seq::new(rc as nat, |i: int| ReportBlock::read(s, 4 + i * 24)),
                },
            )
        }
    }
}

impl ReceiverReport {
    /// Parse from buffer (after common RTCP header has been read).
    /// `rc` is the report count from the common header.
    pub fn parse(buf: &[u8], rc: u8) -> (r: Result<Self, RistError>)
        ensures
            match r {
                Ok(rr) => ReceiverReportView::parsed(buf@, rc) == Ok::<
                    ReceiverReportView,
                    RistErrorView,
                >(rr@),
                Err(e) => ReceiverReportView::parsed(buf@, rc) == Err::<
                    ReceiverReportView,
                    RistErrorView,
                >(e@),
            },
    {
        if buf.len() < 4 {
            return Err(RistError::PacketTooShort { expected: 4, actual: buf.len() });
        }
        let mut r: &[u8] = buf;
        let ssrc: u32 = octets::get_u32(&mut r);

        let mut reports: Vec<ReportBlock> = Vec::with_capacity(rc as usize);
        let mut offset: usize = 4;
        let mut count: u8 = 0;
        while count < rc
            invariant
                count <= rc,
                offset == 4 + count * 24,
                offset <= buf@.len(),
                ssrc == octets::u32_at(buf@, 0),
                reports@ == Seq::new(count as nat, |i: int| ReportBlock::read(buf@, 4 + i * 24)),
            decreases rc - count,
        {
            let rest: &[u8] = &buf[offset..buf.len()];
            match ReportBlock::parse(rest) {
                Ok(block) => {
                    assert(block == ReportBlock::read(buf@, 4 + count * 24));
                    reports.push(block);
                },
                Err(e) => {
                    assert((buf@.len() - 4) % 24 == buf@.len() - offset);
                    return Err(e);
                },
            }
            offset = offset + ReportBlock::SIZE;
            count = count + 1;
            assert(reports@ =~= Seq::new(
                count as nat,
                |i: int| ReportBlock::read(buf@, 4 + i * 24),
            ));
        }
        Ok(ReceiverReport { ssrc, reports })
    }

    /// Starts a packet: the common header and the SSRC.
    fn serialize_head(&self) -> (b: BytesMut)
        ensures
            octets::written(b) == self@.wire().take(4) + octets::be32(self.ssrc),
            octets::written(b).len() == 8,
    {
        let ghost n = self.reports@.len();
        let rc: u8 = octets::low_byte(self.reports.len());
        assert(0x80u8 | (rc & 0x1F) == 0x80 + rc % 32) by (bit_vector);
        assert(rc % 32 == n % 32);
        // One word of SSRC and six per block follow the common header.
        let length: u16 = 1 + (rc as u16) * 6;
        let total_size: usize = 4 + 4 + (rc as usize) * ReportBlock::SIZE;
        let mut buf: BytesMut = octets::new_buffer(total_size);
        common::put_header(&mut buf, 0x80 | (rc & 0x1F), RTCP_PT_RR, length);
        assert(octets::written(buf) =~= self@.wire().take(4));
        octets::put_u32(&mut buf, self.ssrc);
        buf
    }

    /// Serialize the full RR packet including the common RTCP header.
    pub fn serialize(&self) -> (b: BytesMut)
        requires
            self@.wire().len() <= isize::MAX,
        ensures
            octets::written(b) == self@.wire(),
    {
        proof {
            lemma_wire_len(self@);
        }
        let mut buf: BytesMut = self.serialize_head();
        let ghost head = octets::written(buf);
        let mut i: usize = 0;
        assert(head =~= head + ReceiverReportView::blocks_wire(self.reports@.take(0)));
        while i < self.reports.len()
            invariant
                i <= self.reports@.len(),
                8 + self.reports@.len() * ReportBlock::SIZE <= isize::MAX,
                octets::written(buf) == head + ReceiverReportView::blocks_wire(
                    self.reports@.take(i as int),
                ),
                octets::written(buf).len() == 8 + i * ReportBlock::SIZE,
            decreases self.reports@.len() - i,
        {
            self.reports[i].serialize(&mut buf);
            proof {
                let more = self.reports@.take(i + 1);
                assert(more.drop_last() =~= self.reports@.take(i as int));
                assert(octets::written(buf) =~= head + ReceiverReportView::blocks_wire(more));
                assert(self.reports@[i as int].wire().len() == 24);
            }
            i = i + 1;
        }
        assert(self.reports@.take(i as int) =~= self.reports@);
        assert(octets::written(buf) =~= self@.wire().take(4) + self@.body());
        assert(self@.wire() =~= self@.wire().take(4) + self@.body());
        buf
    }

    /// Create an empty RR (RC=0, length=1). Used by senders as an alternative to SR.
    pub fn empty(ssrc: u32) -> (r: Self)
        ensures
            r@ == (ReceiverReportView { ssrc, reports: Seq::empty() }),
    {
        ReceiverReport { ssrc, reports: Vec::new() }
    }
}

pub proof fn lemma_blocks_wire(blocks: Seq<ReportBlock>, i: int)
    requires
        0 <= i < blocks.len(),
    ensures
        ReceiverReportView::blocks_wire(blocks).len() == blocks.len() * 24,
        ReceiverReportView::blocks_wire(blocks).subrange(i * 24, i * 24 + 24) == blocks[i].wire(),
    decreases blocks.len(),
{
    let shorter = blocks.drop_last();
    let s = ReceiverReportView::blocks_wire(blocks);
    assert(blocks.last().wire().len() == 24);
    assert(shorter.len() == 0 ==> ReceiverReportView::blocks_wire(shorter).len() == 0);
    if shorter.len() > 0 {
        lemma_blocks_wire(shorter, 0);
    }
    if i < shorter.len() {
        lemma_blocks_wire(shorter, i);
        assert(s.subrange(i * 24, i * 24 + 24) =~= ReceiverReportView::blocks_wire(
            shorter,
        ).subrange(i * 24, i * 24 + 24));
    } else {
        assert(s.subrange(i * 24, i * 24 + 24) =~= blocks[i].wire());
    }
}

/// How long a report is on the wire.
pub proof fn lemma_wire_len(rr: ReceiverReportView)
    ensures
        rr.wire().len() == 8 + rr.reports.len() * 24,
{
    if rr.reports.len() > 0 {
        lemma_blocks_wire(rr.reports, 0);
    }
}

/// A serialized report block reads back as it was, wherever it stands.
pub proof fn law_report_block_reads_back(b: ReportBlock, s: Seq<u8>, at: int)
    requires
        b.fits(),
        0 <= at,
        at + ReportBlock::SIZE <= s.len(),
        s.subrange(at, at + 24) == b.wire(),
    ensures
        ReportBlock::read(s, at) == b,
{
    let w = s.subrange(at, at + 24);
    assert forall|k: int| 0 <= k <= 20 implies #[trigger] w.subrange(k, k + 4) =~= s.subrange(
        at + k,
        at + k + 4,
    ) by {}
    assert(w.subrange(0, 4) =~= octets::be32(b.ssrc));
    assert(w.subrange(4, 8) =~= octets::be32(b.lost_word()));
    assert(w.subrange(8, 12) =~= octets::be32(b.extended_highest_seq));
    assert(w.subrange(12, 16) =~= octets::be32(b.jitter));
    assert(w.subrange(16, 20) =~= octets::be32(b.last_sr));
    assert(w.subrange(20, 24) =~= octets::be32(b.delay_since_last_sr));
    octets::law_be32_reads_back(s, at, b.ssrc);
    octets::law_be32_reads_back(s, at + 4, b.lost_word());
    octets::law_be32_reads_back(s, at + 8, b.extended_highest_seq);
    octets::law_be32_reads_back(s, at + 12, b.jitter);
    octets::law_be32_reads_back(s, at + 16, b.last_sr);
    octets::law_be32_reads_back(s, at + 20, b.delay_since_last_sr);
}

/// A report block takes 24 bytes after what a buffer holds, and parses back
/// from there as it was, a negative loss included. Fewer bytes are too few.
pub proof fn law_appended_block_parses_back(b: ReportBlock, before: Seq<u8>, short: Seq<u8>)
    requires
        b.fits(),
        short.len() < ReportBlock::SIZE,
    ensures
        b.wire().len() == ReportBlock::SIZE,
        ReportBlock::parsed((before + b.wire()).skip(before.len() as int)) == Ok::<
            ReportBlock,
            RistErrorView,
        >(b),
        ReportBlock::parsed(short) == Err::<ReportBlock, RistErrorView>(
            RistErrorView::PacketTooShort { expected: 24, actual: short.len() as int },
        ),
{
    let s = (before + b.wire()).skip(before.len() as int);
    assert(s.subrange(0, 24) =~= b.wire());
    law_report_block_reads_back(b, s, 0);
}

/// A serialized receiver report reads back as it was.
pub proof fn law_receiver_report_reads_back(rr: ReceiverReportView)
    requires
        rr.fits(),
    ensures
        ReceiverReportView::parsed(rr.body(), rr.reports.len() as u8) == Ok::<
            ReceiverReportView,
            RistErrorView,
        >(rr),
        rr.wire() == rr.wire().take(4) + rr.body(),
        rr.wire().len() == 8 + rr.reports.len() * 24,
{
    let s = rr.body();
    let blocks = ReceiverReportView::blocks_wire(rr.reports);
    if rr.reports.len() > 0 {
        lemma_blocks_wire(rr.reports, 0);
    }
    octets::law_be32_reads_back(s, 0, rr.ssrc);
    assert forall|i: int| 0 <= i < rr.reports.len() implies #[trigger] ReportBlock::read(
        s,
        4 + i * 24,
    ) == rr.reports[i] by {
        lemma_blocks_wire(rr.reports, i);
        assert(s.subrange(4 + i * 24, 4 + i * 24 + 24) =~= blocks.subrange(i * 24, i * 24 + 24));
        law_report_block_reads_back(rr.reports[i], s, 4 + i * 24);
    }
    assert(rr.wire() =~= rr.wire().take(4) + rr.body());
    assert(Seq::new(rr.reports.len(), |i: int| ReportBlock::read(s, 4 + i * 24)) =~= rr.reports);
}

} // verus!
