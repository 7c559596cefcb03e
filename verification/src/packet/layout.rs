//! Where each field of a packet stands on the wire, byte by byte.

use vstd::prelude::*;
use vstd::utf8::*;

use crate::error::RistErrorView;
use crate::octets;
use crate::packet::common;
use crate::packet::rtcp;
use crate::packet::rtcp::{RtcpCommonHeader, RtcpPacketView};
use crate::packet::rtcp_app::RistAppView;
use crate::packet::rtcp_nack::{NackEntriesView, NackPacketView};
use crate::packet::rtcp_rr;
use crate::packet::rtcp_rr::{ReceiverReportView, ReportBlock};
use crate::packet::rtcp_sdes::SdesView;
use crate::packet::rtcp_sr::SenderReport;
use crate::packet::rtp::{RtpHeader, RtpPacketView};

verus! {

broadcast use {octets::lemma_be16_len, octets::lemma_be32_len};

/// The number that two bytes make up, the most significant first.
pub open spec fn int16(s: Seq<u8>, at: int) -> int {
    s[at] * 256 + s[at + 1]
}

/// The number that four bytes make up, the most significant first.
pub open spec fn int32(s: Seq<u8>, at: int) -> int {
    s[at] * 0x100_0000 + s[at + 1] * 0x1_0000 + s[at + 2] * 256 + s[at + 3]
}

/// Two big-endian bytes at `at` stand for their number.
proof fn lemma_int16(s: Seq<u8>, at: int, n: u16)
    requires
        0 <= at,
        at + 2 <= s.len(),
        s.subrange(at, at + 2) == octets::be16(n),
    ensures
        int16(s, at) == n,
{
    octets::law_be16_reads_back(s, at, n);
}

/// Four big-endian bytes at `at` stand for their number.
proof fn lemma_int32(s: Seq<u8>, at: int, n: u32)
    requires
        0 <= at,
        at + 4 <= s.len(),
        s.subrange(at, at + 4) == octets::be32(n),
    ensures
        int32(s, at) == n,
{
    octets::law_be32_reads_back(s, at, n);
}

/// An RTP header on the wire: version, padding, extension and CSRC count in
/// the first byte, marker and payload type in the second, then the sequence
/// number, the timestamp and the SSRC.
pub proof fn law_rtp_header_layout(h: RtpHeader)
    ensures
        ({
            let w = h.wire();
            &&& w.len() == 12
            &&& w[0] / 64 == h.version % 4
            &&& (w[0] / 32 % 2 == 1) == h.padding
            &&& (w[0] / 16 % 2 == 1) == h.extension
            &&& w[0] % 16 == h.csrc_count % 16
            &&& (w[1] / 128 == 1) == h.marker
            &&& w[1] % 128 == h.payload_type % 128
            &&& int16(w, 2) == h.sequence_number
            &&& int32(w, 4) == h.timestamp
            &&& int32(w, 8) == h.ssrc
        }),
{
    let w = h.wire();
    assert(w.subrange(2, 4) =~= octets::be16(h.sequence_number));
    assert(w.subrange(4, 8) =~= octets::be32(h.timestamp));
    assert(w.subrange(8, 12) =~= octets::be32(h.ssrc));
    lemma_int16(w, 2, h.sequence_number);
    lemma_int32(w, 4, h.timestamp);
    lemma_int32(w, 8, h.ssrc);
}

/// An RTP header is accepted where there are 12 bytes of version 2 and all the
/// CSRC entries they count; each field is read from its place.
pub proof fn law_rtp_header_fields(s: Seq<u8>)
    ensures
        RtpHeader::parsed(s) is Ok <==> s.len() >= 12 && s[0] / 64 == 2 && s.len() >= 12 + 4 * (s[0]
            % 16),
        RtpHeader::parsed(s) matches Ok((h, size)) ==> {
            &&& size == 12 + 4 * (s[0] % 16)
            &&& h.version == 2
            &&& h.padding == (s[0] / 32 % 2 == 1)
            &&& h.extension == (s[0] / 16 % 2 == 1)
            &&& h.csrc_count == s[0] % 16
            &&& h.marker == (s[1] >= 128)
            &&& h.payload_type == s[1] % 128
            &&& h.sequence_number == int16(s, 2)
            &&& h.timestamp == int32(s, 4)
            &&& h.ssrc == int32(s, 8)
        },
        s.len() < 12 ==> RtpHeader::parsed(s) == Err::<(RtpHeader, int), RistErrorView>(
            RistErrorView::PacketTooShort { expected: 12, actual: s.len() as int },
        ),
        s.len() >= 12 && s[0] / 64 != 2 ==> RtpHeader::parsed(s) == Err::<
            (RtpHeader, int),
            RistErrorView,
        >(RistErrorView::InvalidRtpVersion(s[0] / 64)),
{
}

/// The payload of an RTP packet is what follows the header, the CSRC entries
/// that it counts, and the extension that it announces: four bytes, of which
/// the last two count the words after them.
pub proof fn law_rtp_payload_is_the_rest(
    head: Seq<u8>,
    csrcs: Seq<u8>,
    ext: Seq<u8>,
    payload: Seq<u8>,
)
    requires
        head.len() == 12,
        head[0] / 64 == 2,
        csrcs.len() == 4 * (head[0] % 16),
        head[0] / 16 % 2 == 0 ==> ext.len() == 0,
        head[0] / 16 % 2 == 1 ==> ext.len() >= 4 && ext.len() == 4 + 4 * int16(ext, 2),
    ensures
        RtpPacketView::parsed(head + csrcs + ext + payload) matches Ok(p) && p.payload == payload
            && p.header.sequence_number == int16(head, 2) && p.header.timestamp == int32(head, 4)
            && p.header.ssrc == int32(head, 8),
{
    let s = head + csrcs + ext + payload;
    let size = 12 + 4 * (head[0] % 16) as int;
    assert(s[0] == head[0]);
    assert(size == 12 + csrcs.len());
    if head[0] / 16 % 2 == 1 {
        assert(s[size + 2] == ext[2]);
        assert(s[size + 3] == ext[3]);
        assert(s.skip(size + ext.len()) =~= payload);
    } else {
        assert(s.skip(size) =~= payload);
    }
}

/// A sender report on the wire: version 2 without padding or blocks, type 200,
/// six more words, then its fields.
pub proof fn law_sender_report_layout(sr: SenderReport)
    ensures
        ({
            let w = sr.wire();
            &&& w.len() == 28
            &&& w[0] == 0x80
            &&& w[1] == 200
            &&& int16(w, 2) == 6
            &&& int32(w, 4) == sr.ssrc
            &&& int32(w, 8) == sr.ntp_msw
            &&& int32(w, 12) == sr.ntp_lsw
            &&& int32(w, 16) == sr.rtp_timestamp
            &&& int32(w, 20) == sr.sender_packet_count
            &&& int32(w, 24) == sr.sender_octet_count
        }),
{
    let w = sr.wire();
    assert(w.subrange(2, 4) =~= octets::be16(6));
    assert(w.subrange(4, 8) =~= octets::be32(sr.ssrc));
    assert(w.subrange(8, 12) =~= octets::be32(sr.ntp_msw));
    assert(w.subrange(12, 16) =~= octets::be32(sr.ntp_lsw));
    assert(w.subrange(16, 20) =~= octets::be32(sr.rtp_timestamp));
    assert(w.subrange(20, 24) =~= octets::be32(sr.sender_packet_count));
    assert(w.subrange(24, 28) =~= octets::be32(sr.sender_octet_count));
    lemma_int16(w, 2, 6);
    lemma_int32(w, 4, sr.ssrc);
    lemma_int32(w, 8, sr.ntp_msw);
    lemma_int32(w, 12, sr.ntp_lsw);
    lemma_int32(w, 16, sr.rtp_timestamp);
    lemma_int32(w, 20, sr.sender_packet_count);
    lemma_int32(w, 24, sr.sender_octet_count);
}

/// A sender report is read from 24 bytes, each field from its place.
pub proof fn law_sender_report_fields(s: Seq<u8>)
    ensures
        SenderReport::parsed(s) is Ok <==> s.len() >= 24,
        SenderReport::parsed(s) matches Ok(sr) ==> {
            &&& sr.ssrc == int32(s, 0)
            &&& sr.ntp_msw == int32(s, 4)
            &&& sr.ntp_lsw == int32(s, 8)
            &&& sr.rtp_timestamp == int32(s, 12)
            &&& sr.sender_packet_count == int32(s, 16)
            &&& sr.sender_octet_count == int32(s, 20)
        },
{
}

/// The time that a receiver echoes of a sender report is the middle of its
/// 64-bit NTP timestamp.
pub proof fn law_compact_time_is_the_middle(sr: SenderReport)
    ensures
        sr.middle_ntp() == (sr.ntp_msw * 0x1_0000_0000 + sr.ntp_lsw) / 0x1_0000 % 0x1_0000_0000,
{
    let n = sr.ntp_msw * 0x1_0000_0000 + sr.ntp_lsw;
    assert(n / 0x1_0000 == sr.ntp_msw * 0x1_0000 + sr.ntp_lsw / 0x1_0000);
}

/// Whether `b` stands at `at` of `s`: the SSRC, a byte of the fraction lost,
/// three bytes of the count lost in two's complement, the highest sequence
/// number, the jitter, and the two words on the last sender report.
pub open spec fn block_stands_at(s: Seq<u8>, at: int, b: ReportBlock) -> bool {
    &&& int32(s, at) == b.ssrc
    &&& s[at + 4] == b.fraction_lost
    &&& s[at + 5] * 0x1_0000 + s[at + 6] * 256 + s[at + 7] == if b.cumulative_lost >= 0 {
        b.cumulative_lost as int
    } else {
        b.cumulative_lost + 0x100_0000
    }
    &&& int32(s, at + 8) == b.extended_highest_seq
    &&& int32(s, at + 12) == b.jitter
    &&& int32(s, at + 16) == b.last_sr
    &&& int32(s, at + 20) == b.delay_since_last_sr
}

/// A report block on the wire, field by field.
pub proof fn law_report_block_layout(b: ReportBlock)
    requires
        -0x80_0000 <= b.cumulative_lost < 0x80_0000,
    ensures
        b.wire().len() == 24,
        block_stands_at(b.wire(), 0, b),
{
    let w = b.wire();
    assert(w.subrange(0, 4) =~= octets::be32(b.ssrc));
    assert(w.subrange(4, 8) =~= octets::be32(b.lost_word()));
    assert(w.subrange(8, 12) =~= octets::be32(b.extended_highest_seq));
    assert(w.subrange(12, 16) =~= octets::be32(b.jitter));
    assert(w.subrange(16, 20) =~= octets::be32(b.last_sr));
    assert(w.subrange(20, 24) =~= octets::be32(b.delay_since_last_sr));
    lemma_int32(w, 0, b.ssrc);
    lemma_int32(w, 4, b.lost_word());
    lemma_int32(w, 8, b.extended_highest_seq);
    lemma_int32(w, 12, b.jitter);
    lemma_int32(w, 16, b.last_sr);
    lemma_int32(w, 20, b.delay_since_last_sr);
}

/// A report block is read from 24 bytes, each field from its place.
pub proof fn law_report_block_fields(s: Seq<u8>)
    ensures
        ReportBlock::parsed(s) is Ok <==> s.len() >= 24,
        ReportBlock::parsed(s) matches Ok(b) ==> block_stands_at(s, 0, b) && -0x80_0000
            <= b.cumulative_lost < 0x80_0000,
{
}

/// A receiver report on the wire: version 2 without padding, the count of
/// blocks, type 201, the length in words less one, the SSRC, and the blocks.
pub proof fn law_receiver_report_layout(rr: ReceiverReportView, i: int)
    requires
        rr.reports.len() < 32,
        0 <= i < rr.reports.len() ==> -0x80_0000 <= rr.reports[i].cumulative_lost < 0x80_0000,
    ensures
        ({
            let w = rr.wire();
            &&& w.len() == 8 + 24 * rr.reports.len()
            &&& w[0] == 0x80 + rr.reports.len()
            &&& w[1] == 201
            &&& 4 * (int16(w, 2) + 1) == w.len()
            &&& int32(w, 4) == rr.ssrc
            &&& 0 <= i < rr.reports.len() ==> block_stands_at(w, 8 + 24 * i, rr.reports[i])
        }),
{
    let w = rr.wire();
    let n = rr.reports.len();
    rtcp_rr::lemma_wire_len(rr);
    assert(n % 32 == n && n % 256 == n);
    assert(w.subrange(2, 4) =~= octets::be16((1 + n * 6) as u16));
    assert(w.subrange(4, 8) =~= octets::be32(rr.ssrc));
    lemma_int16(w, 2, (1 + n * 6) as u16);
    lemma_int32(w, 4, rr.ssrc);
    if 0 <= i < n {
        let b = rr.reports[i].wire();
        rtcp_rr::lemma_blocks_wire(rr.reports, i);
        law_report_block_layout(rr.reports[i]);
        assert forall|k: int| 0 <= k < 24 implies #[trigger] b[k] == w[8 + 24 * i + k] by {
            assert(b[k] == ReceiverReportView::blocks_wire(rr.reports).subrange(
                i * 24,
                i * 24 + 24,
            )[k]);
        }
    }
}

/// A receiver report of `rc` blocks is read where all of them are there, each
/// from its place after the SSRC.
pub proof fn law_receiver_report_fields(s: Seq<u8>, rc: u8, i: int)
    ensures
        ReceiverReportView::parsed(s, rc) is Ok <==> s.len() >= 4 + 24 * rc,
        ReceiverReportView::parsed(s, rc) matches Ok(rr) ==> {
            &&& rr.ssrc == int32(s, 0)
            &&& rr.reports.len() == rc
            &&& 0 <= i < rc ==> block_stands_at(s, 4 + 24 * i, rr.reports[i])
        },
{
}

/// A source description on the wire: one chunk, type 202, the length in words
/// less one, the SSRC, item type 1, the length of the name and the name in
/// UTF-8, then one to four zero bytes up to a word boundary.
pub proof fn law_sdes_layout(sdes: SdesView)
    requires
        encode_utf8(sdes.cname).len() <= 255,
    ensures
        ({
            let w = sdes.wire();
            let name = encode_utf8(sdes.cname);
            let end = 10 + name.len() as int;
            &&& w[0] == 0x81
            &&& w[1] == 202
            &&& 4 * (int16(w, 2) + 1) == w.len()
            &&& int32(w, 4) == sdes.ssrc
            &&& w[8] == 1
            &&& w[9] == name.len()
            &&& w.subrange(10, end) == name
            &&& end + 1 <= w.len() <= end + 4
            &&& forall|k: int| end <= k < w.len() ==> #[trigger] w[k] == 0
        }),
{
    let w = sdes.wire();
    let name = encode_utf8(sdes.cname);
    let length = (sdes.body().len() / 4 % 65_536) as u16;
    assert(w.subrange(2, 4) =~= octets::be16(length));
    assert(w.subrange(4, 8) =~= octets::be32(sdes.ssrc));
    assert(w.subrange(10, 10 + name.len() as int) =~= name);
    lemma_int16(w, 2, length);
    lemma_int32(w, 4, sdes.ssrc);
}

/// A source description is read where its one item is a name that is all
/// there; the name is that of as many bytes as its length counts.
pub proof fn law_sdes_fields(s: Seq<u8>)
    ensures
        SdesView::parsed(s) is Ok <==> s.len() >= 6 && s[4] == 1 && s.len() >= 6 + s[5],
        SdesView::parsed(s) matches Ok(sdes) ==> {
            &&& sdes.ssrc == int32(s, 0)
            &&& valid_utf8(s.subrange(6, 6 + s[5])) ==> sdes.cname == decode_utf8(
                s.subrange(6, 6 + s[5]),
            )
        },
{
}

/// A NACK on the wire: version 2 without padding, format 1 for bitmasks and 15
/// for ranges, type 205, the length in words less one, the SSRC of the
/// receiver that asks, the SSRC of the media, and the two words of each entry.
pub proof fn law_nack_layout(p: NackPacketView, i: int)
    ensures
        ({
            let w = p.wire();
            let count = match p.entries {
                NackEntriesView::Bitmask(v) => v.len(),
                NackEntriesView::Range(v) => v.len(),
            };
            &&& w.len() == 12 + 4 * count
            &&& w[0] == 0x80 + if p.entries is Bitmask {
                1int
            } else {
                15
            }
            &&& w[1] == 205
            &&& count < 65_534 ==> 4 * (int16(w, 2) + 1) == w.len()
            &&& int32(w, 4) == p.sender_ssrc
            &&& int32(w, 8) == p.media_ssrc
            &&& 0 <= i < count ==> match p.entries {
                NackEntriesView::Bitmask(v) => int16(w, 12 + 4 * i) == v[i].pid && int16(
                    w,
                    14 + 4 * i,
                ) == v[i].blp,
                NackEntriesView::Range(v) => int16(w, 12 + 4 * i) == v[i].start && int16(
                    w,
                    14 + 4 * i,
                ) == v[i].extra,
            }
        }),
{
    let w = p.wire();
    let pairs = p.entries.pairs();
    let length = ((2 + pairs.len()) % 65_536) as u16;
    common::lemma_pairs_len(pairs);
    assert(w.subrange(2, 4) =~= octets::be16(length));
    assert(w.subrange(4, 8) =~= octets::be32(p.sender_ssrc));
    assert(w.subrange(8, 12) =~= octets::be32(p.media_ssrc));
    lemma_int16(w, 2, length);
    lemma_int32(w, 4, p.sender_ssrc);
    lemma_int32(w, 8, p.media_ssrc);
    if 0 <= i < pairs.len() {
        common::lemma_pair_wire(pairs, i);
        let tail = common::pairs_wire(pairs);
        assert(w.subrange(12 + 4 * i, 14 + 4 * i) =~= tail.subrange(i * 4, i * 4 + 2));
        assert(w.subrange(14 + 4 * i, 16 + 4 * i) =~= tail.subrange(i * 4 + 2, i * 4 + 4));
        lemma_int16(w, 12 + 4 * i, pairs[i].0);
        lemma_int16(w, 14 + 4 * i, pairs[i].1);
    }
}

/// A NACK is read from eight bytes on: the SSRC of the receiver that asks, the
/// SSRC of the media, and an entry from each further word that is counted.
pub proof fn law_nack_fields(s: Seq<u8>, fmt: u8, payload_len: int, i: int)
    requires
        payload_len >= 0,
    ensures
        ({
            let parsed = NackPacketView::parsed(s, fmt, payload_len);
            let count = if payload_len < 8 {
                0
            } else {
                (payload_len - 8) / 4
            };
            &&& parsed is Ok <==> s.len() >= 8 && (fmt == 1 || fmt == 15)
            &&& parsed matches Ok(p) ==> {
                &&& p.sender_ssrc == int32(s, 0)
                &&& p.media_ssrc == int32(s, 4)
                &&& match p.entries {
                    NackEntriesView::Bitmask(v) => {
                        &&& fmt == 1
                        &&& v.len() == count
                        &&& 0 <= i < count ==> v[i].pid == int16(s, 8 + 4 * i) && v[i].blp
                            == int16(s, 10 + 4 * i)
                    },
                    NackEntriesView::Range(v) => {
                        &&& fmt == 15
                        &&& v.len() == count
                        &&& 0 <= i < count ==> v[i].start == int16(s, 8 + 4 * i) && v[i].extra
                            == int16(s, 10 + 4 * i)
                    },
                }
            }
            &&& s.len() < 8 ==> parsed == Err::<NackPacketView, RistErrorView>(
                RistErrorView::PacketTooShort { expected: 8, actual: s.len() as int },
            )
            &&& s.len() >= 8 && parsed is Err ==> parsed == Err::<NackPacketView, RistErrorView>(
                RistErrorView::InvalidNackFormat(fmt),
            )
        }),
{
}

/// The ASCII bytes of the name "RIST" at `at`.
pub open spec fn named_rist(s: Seq<u8>, at: int) -> bool {
    s[at] == 0x52 && s[at + 1] == 0x49 && s[at + 2] == 0x53 && s[at + 3] == 0x54
}

/// An APP packet on the wire: version 2 without padding, the subtype (0 for a
/// range NACK, 2 for an echo request, 3 for a response), type 204, the length
/// in words less one, the SSRC, the name "RIST", and the fields of its kind.
pub proof fn law_app_layout(app: RistAppView, i: int)
    requires
        !(app is Unknown),
    ensures
        ({
            let w = app.wire();
            &&& w.len() >= 12
            &&& w[1] == 204
            &&& w.len() < 65_536 * 4 ==> 4 * (int16(w, 2) + 1) == w.len()
            &&& named_rist(w, 8)
            &&& match app {
                RistAppView::RttEchoRequest(req) => {
                    &&& w.len() == 20
                    &&& w[0] == 0x82
                    &&& int32(w, 4) == req.ssrc
                    &&& int32(w, 12) == req.timestamp_msw
                    &&& int32(w, 16) == req.timestamp_lsw
                },
                RistAppView::RttEchoResponse(resp) => {
                    &&& w.len() == 24
                    &&& w[0] == 0x83
                    &&& int32(w, 4) == resp.ssrc
                    &&& int32(w, 12) == resp.timestamp_msw
                    &&& int32(w, 16) == resp.timestamp_lsw
                    &&& int32(w, 20) == resp.processing_delay_us
                },
                RistAppView::RangeNack(nack) => {
                    &&& w.len() == 12 + 4 * nack.entries.len()
                    &&& w[0] == 0x80
                    &&& int32(w, 4) == nack.media_ssrc
                    &&& 0 <= i < nack.entries.len() ==> int16(w, 12 + 4 * i) == nack.entries[i].0
                        && int16(w, 14 + 4 * i) == nack.entries[i].1
                },
                RistAppView::Unknown { .. } => true,
            }
        }),
{
    let w = app.wire();
    let length = (app.body().len() / 4 % 65_536) as u16;
    if let RistAppView::RangeNack(nack) = app {
        common::lemma_pairs_len(nack.entries);
    }
    assert(w.subrange(2, 4) =~= octets::be16(length));
    lemma_int16(w, 2, length);
    assert(w.subrange(8, 12) =~= octets::be32(0x5249_5354));
    lemma_name(w, 8);
    match app {
        RistAppView::RttEchoRequest(req) => {
            assert(w.subrange(4, 8) =~= octets::be32(req.ssrc));
            assert(w.subrange(12, 16) =~= octets::be32(req.timestamp_msw));
            assert(w.subrange(16, 20) =~= octets::be32(req.timestamp_lsw));
            lemma_int32(w, 4, req.ssrc);
            lemma_int32(w, 12, req.timestamp_msw);
            lemma_int32(w, 16, req.timestamp_lsw);
        },
        RistAppView::RttEchoResponse(resp) => {
            assert(w.subrange(4, 8) =~= octets::be32(resp.ssrc));
            assert(w.subrange(12, 16) =~= octets::be32(resp.timestamp_msw));
            assert(w.subrange(16, 20) =~= octets::be32(resp.timestamp_lsw));
            assert(w.subrange(20, 24) =~= octets::be32(resp.processing_delay_us));
            lemma_int32(w, 4, resp.ssrc);
            lemma_int32(w, 12, resp.timestamp_msw);
            lemma_int32(w, 16, resp.timestamp_lsw);
            lemma_int32(w, 20, resp.processing_delay_us);
        },
        RistAppView::RangeNack(nack) => {
            assert(w.subrange(4, 8) =~= octets::be32(nack.media_ssrc));
            lemma_int32(w, 4, nack.media_ssrc);
            if 0 <= i < nack.entries.len() {
                common::lemma_pair_wire(nack.entries, i);
                let tail = common::pairs_wire(nack.entries);
                assert(w.subrange(12 + 4 * i, 14 + 4 * i) =~= tail.subrange(i * 4, i * 4 + 2));
                assert(w.subrange(14 + 4 * i, 16 + 4 * i) =~= tail.subrange(i * 4 + 2, i * 4 + 4));
                lemma_int16(w, 12 + 4 * i, nack.entries[i].0);
                lemma_int16(w, 14 + 4 * i, nack.entries[i].1);
            }
        },
        RistAppView::Unknown { .. } => {},
    }
}

proof fn lemma_name(s: Seq<u8>, at: int)
    requires
        0 <= at,
        at + 4 <= s.len(),
        s.subrange(at, at + 4) == octets::be32(0x5249_5354),
    ensures
        named_rist(s, at),
{
    reveal(octets::be32);
    let b = octets::be32(0x5249_5354);
    assert(b[0] == 0x52 && b[1] == 0x49 && b[2] == 0x53 && b[3] == 0x54);
    assert(s[at] == s.subrange(at, at + 4)[0]);
    assert(s[at + 1] == s.subrange(at, at + 4)[1]);
    assert(s[at + 2] == s.subrange(at, at + 4)[2]);
    assert(s[at + 3] == s.subrange(at, at + 4)[3]);
}

/// Bytes that spell a name other than "RIST" are another number.
proof fn lemma_other_name(s: Seq<u8>, at: int)
    ensures
        octets::u32_at(s, at) == 0x5249_5354 <==> named_rist(s, at),
{
}

/// An APP packet is read by its name and its subtype. A packet under another
/// name, or of a subtype that has no meaning here, is kept whole.
pub proof fn law_app_fields(s: Seq<u8>, subtype: u8, i: int)
    ensures
        ({
            let parsed = RistAppView::parsed(s, subtype);
            &&& s.len() < 8 ==> parsed == Err::<RistAppView, RistErrorView>(
                RistErrorView::PacketTooShort { expected: 8, actual: s.len() as int },
            )
            &&& s.len() >= 8 && !named_rist(s, 4) ==> parsed == Ok::<RistAppView, RistErrorView>(
                RistAppView::Unknown { subtype, data: s },
            )
            &&& s.len() >= 8 && named_rist(s, 4) && subtype == 0 ==> (parsed matches Ok(
                RistAppView::RangeNack(nack),
            ) && nack.media_ssrc == int32(s, 0) && nack.entries.len() == (s.len() - 8) / 4 && (0
                <= i < nack.entries.len() ==> nack.entries[i].0 == int16(s, 8 + 4 * i)
                && nack.entries[i].1 == int16(s, 10 + 4 * i)))
            &&& s.len() >= 16 && named_rist(s, 4) && subtype == 2 ==> (parsed matches Ok(
                RistAppView::RttEchoRequest(req),
            ) && req.ssrc == int32(s, 0) && req.timestamp_msw == int32(s, 8) && req.timestamp_lsw
                == int32(s, 12))
            &&& s.len() >= 20 && named_rist(s, 4) && subtype == 3 ==> (parsed matches Ok(
                RistAppView::RttEchoResponse(resp),
            ) && resp.ssrc == int32(s, 0) && resp.timestamp_msw == int32(s, 8)
                && resp.timestamp_lsw == int32(s, 12) && resp.processing_delay_us == int32(s, 16))
            &&& s.len() >= 8 && named_rist(s, 4) && subtype != 0 && subtype != 2 && subtype != 3
                ==> parsed == Ok::<RistAppView, RistErrorView>(
                RistAppView::Unknown { subtype, data: s },
            )
        }),
{
    lemma_other_name(s, 4);
}

/// A common RTCP header is accepted where there are four bytes of version 2;
/// each field is read from its place.
pub proof fn law_rtcp_header_fields(s: Seq<u8>)
    ensures
        RtcpCommonHeader::parsed(s) is Ok <==> s.len() >= 4 && s[0] / 64 == 2,
        RtcpCommonHeader::parsed(s) matches Ok(h) ==> {
            &&& h.version == 2
            &&& h.padding == (s[0] / 32 % 2 == 1)
            &&& h.count == s[0] % 32
            &&& h.packet_type == s[1]
            &&& h.length == int16(s, 2)
            &&& h.size() == 4 * (int16(s, 2) + 1)
        },
        s.len() >= 4 && s[0] / 64 != 2 ==> RtcpCommonHeader::parsed(s) == Err::<
            RtcpCommonHeader,
            RistErrorView,
        >(RistErrorView::InvalidRtpVersion(s[0] / 64)),
{
}

/// A datagram is walked packet by packet, each as long as its header says. The
/// packet type, the second byte, says how its body is read, with the count in
/// the first; what its format rejects is kept as it is.
pub proof fn law_datagram_is_walked(s: Seq<u8>, rest: Seq<u8>)
    requires
        s.len() >= 4,
        s[0] / 64 == 2,
        s.len() == 4 * (int16(s, 2) + 1),
    ensures
        match rtcp::compound_parsed(rest) {
            Err(e) => rtcp::compound_parsed(s + rest) == Err::<Seq<RtcpPacketView>, RistErrorView>(
                e,
            ),
            Ok(more) => exists|first: RtcpPacketView|
                {
                    &&& #[trigger] is_read_as(s[1], (s[0] % 32) as u8, s.skip(4), first)
                    &&& rtcp::compound_parsed(s + rest) == Ok::<Seq<RtcpPacketView>, RistErrorView>(
                        seq![first] + more,
                    )
                },
        },
{
    let all = s + rest;
    let header = RtcpCommonHeader::parsed(all)->Ok_0;
    assert(all[0] == s[0] && all[1] == s[1] && all[2] == s[2] && all[3] == s[3]);
    assert(all.subrange(4, s.len() as int) =~= s.skip(4));
    assert(all.skip(s.len() as int) =~= rest);
    let first = RtcpPacketView::read(header, s.skip(4));
    reveal(RtcpPacketView::read);
    assert(is_read_as(s[1], (s[0] % 32) as u8, s.skip(4), first));
}

/// Whether `p` is what a body of packet type `packet_type` with `count` in its
/// header is read as.
pub open spec fn is_read_as(packet_type: u8, count: u8, body: Seq<u8>, p: RtcpPacketView) -> bool {
    match packet_type {
        200 => match SenderReport::parsed(body) {
            Ok(sr) => p == RtcpPacketView::SenderReport(sr),
            Err(_) => p == RtcpPacketView::Unknown { packet_type, data: body },
        },
        201 => match ReceiverReportView::parsed(body, count) {
            Ok(rr) => p == RtcpPacketView::ReceiverReport(rr),
            Err(_) => p == RtcpPacketView::Unknown { packet_type, data: body },
        },
        202 => match SdesView::parsed(body) {
            Ok(sdes) => p == RtcpPacketView::Sdes(sdes),
            Err(_) => p == RtcpPacketView::Unknown { packet_type, data: body },
        },
        204 => match RistAppView::parsed(body, count) {
            Ok(app) => p == RtcpPacketView::App(app),
            Err(_) => p == RtcpPacketView::Unknown { packet_type, data: body },
        },
        205 => match NackPacketView::parsed(body, count, body.len() as int) {
            Ok(nack) => p == RtcpPacketView::Nack(nack),
            Err(_) => p == RtcpPacketView::Unknown { packet_type, data: body },
        },
        _ => p == RtcpPacketView::Unknown { packet_type, data: body },
    }
}

/// A datagram ends where less than a header is left, or where the next packet
/// is cut off; one that goes on with another version is rejected.
pub proof fn law_datagram_ends(s: Seq<u8>)
    ensures
        s.len() < 4 ==> rtcp::compound_parsed(s) == Ok::<Seq<RtcpPacketView>, RistErrorView>(
            Seq::empty(),
        ),
        s.len() >= 4 && s[0] / 64 != 2 ==> rtcp::compound_parsed(s) == Err::<
            Seq<RtcpPacketView>,
            RistErrorView,
        >(RistErrorView::InvalidRtpVersion(s[0] / 64)),
        s.len() >= 4 && s[0] / 64 == 2 && s.len() < 4 * (int16(s, 2) + 1) ==> rtcp::compound_parsed(
            s,
        ) == Ok::<Seq<RtcpPacketView>, RistErrorView>(Seq::empty()),
{
}

/// A compound is its packets one after another, each as its format writes it;
/// unknown ones are left out.
pub proof fn law_compound_is_the_packets(packets: Seq<RtcpPacketView>, p: RtcpPacketView)
    ensures
        rtcp::compound_wire(Seq::empty()) == Seq::<u8>::empty(),
        rtcp::compound_wire(packets.push(p)) == rtcp::compound_wire(packets) + match p {
            RtcpPacketView::SenderReport(sr) => sr.wire(),
            RtcpPacketView::ReceiverReport(rr) => rr.wire(),
            RtcpPacketView::Sdes(sdes) => sdes.wire(),
            RtcpPacketView::Nack(nack) => nack.wire(),
            RtcpPacketView::App(app) => app.wire(),
            RtcpPacketView::Unknown { .. } => Seq::empty(),
        },
{
    rtcp::lemma_compound_push(packets, p);
    reveal(RtcpPacketView::wire);
}

/// An RTP packet is accepted only where the CSRC entries and the extension that
/// its header announces are all there; a rejection says how many bytes there
/// are and how many it takes, or which version it found.
pub proof fn law_rtp_rejections(s: Seq<u8>)
    ensures
        match RtpPacketView::parsed(s) {
            Ok(p) => {
                let size = 12 + 4 * (s[0] % 16);
                &&& s.len() >= size && s[0] / 64 == 2
                &&& s[0] / 16 % 2 == 0 ==> p.payload.len() == s.len() - size
                &&& s[0] / 16 % 2 == 1 ==> s.len() >= size + 4 && p.payload.len() == s.len() - size
                    - 4 - 4 * int16(s, size + 2)
                &&& p.payload == s.skip(s.len() - p.payload.len())
            },
            Err(RistErrorView::PacketTooShort { expected, actual }) => actual == s.len() && expected
                > s.len() && (s.len() < 12 ==> expected == 12) && (s.len() >= 12 && s.len() < 12 + 4
                * (s[0] % 16) ==> expected == 12 + 4 * (s[0] % 16)),
            Err(e) => s.len() >= 12 && s[0] / 64 != 2 && e == RistErrorView::InvalidRtpVersion(
                s[0] / 64,
            ),
        },
{
}

/// A packet that is cut off is rejected with the bytes that there are and those
/// that it takes.
pub proof fn law_rtcp_rejections(s: Seq<u8>, subtype: u8, rc: u8)
    ensures
        s.len() < 4 ==> RtcpCommonHeader::parsed(s) == Err::<RtcpCommonHeader, RistErrorView>(
            RistErrorView::PacketTooShort { expected: 4, actual: s.len() as int },
        ),
        s.len() < 24 ==> SenderReport::parsed(s) == Err::<SenderReport, RistErrorView>(
            RistErrorView::PacketTooShort { expected: 24, actual: s.len() as int },
        ),
        s.len() < 24 ==> ReportBlock::parsed(s) == Err::<ReportBlock, RistErrorView>(
            RistErrorView::PacketTooShort { expected: 24, actual: s.len() as int },
        ),
        s.len() < 4 ==> ReceiverReportView::parsed(s, rc) == Err::<
            ReceiverReportView,
            RistErrorView,
        >(RistErrorView::PacketTooShort { expected: 4, actual: s.len() as int }),
        s.len() < 6 ==> SdesView::parsed(s) == Err::<SdesView, RistErrorView>(
            RistErrorView::PacketTooShort { expected: 6, actual: s.len() as int },
        ),
        s.len() >= 6 && s[4] == 1 && s.len() < 6 + s[5] ==> SdesView::parsed(s) == Err::<
            SdesView,
            RistErrorView,
        >(RistErrorView::PacketTooShort { expected: 6 + s[5], actual: s.len() as int }),
        s.len() >= 6 && s[4] != 1 ==> SdesView::parsed(s) matches Err(RistErrorView::Other(_)),
        8 <= s.len() < 16 && named_rist(s, 4) && subtype == 2 ==> RistAppView::parsed(s, subtype)
            == Err::<RistAppView, RistErrorView>(
            RistErrorView::PacketTooShort { expected: 16, actual: s.len() as int },
        ),
        8 <= s.len() < 20 && named_rist(s, 4) && subtype == 3 ==> RistAppView::parsed(s, subtype)
            == Err::<RistAppView, RistErrorView>(
            RistErrorView::PacketTooShort { expected: 20, actual: s.len() as int },
        ),
{
}

} // verus!
