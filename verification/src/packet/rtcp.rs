//! RTCP compound packet parsing and building.
//!
//! Per RFC 3550 and TR-06-1:2020 Section 5.2.1, RTCP packets are always sent
//! as compound packets: multiple RTCP sub-packets concatenated in a single
//! UDP datagram with no separators.

use bytes::BytesMut;
use vstd::prelude::*;

use crate::error::{RistError, RistErrorView};
use crate::octets;
use crate::packet::common;
use crate::packet::rtcp_app;
use crate::packet::rtcp_app::{RistApp, RistAppView, RTCP_PT_APP};
use crate::packet::rtcp_nack;
use crate::packet::rtcp_nack::{NackPacket, NackPacketView, RTCP_PT_RTPFB};
use crate::packet::rtcp_rr;
use crate::packet::rtcp_rr::{ReceiverReport, ReceiverReportView, RTCP_PT_RR};
use crate::packet::rtcp_sdes;
use crate::packet::rtcp_sdes::{Sdes, SdesView, RTCP_PT_SDES};
use crate::packet::rtcp_sr;
use crate::packet::rtcp_sr::{SenderReport, RTCP_PT_SR};

verus! {

broadcast use {octets::lemma_be16_len, octets::lemma_be32_len};

/// Common RTCP header (4 bytes).
#[derive(Debug, Clone, Copy, PartialEq, Eq, Structural)]
pub struct RtcpCommonHeader {
    /// Version (2 bits, always 2).
    pub version: u8,
    /// Padding flag.
    pub padding: bool,
    /// Count/subtype field (5 bits). Meaning depends on packet type:
    /// - SR/RR: reception report count (RC)
    /// - SDES: source count (SC)
    /// - APP: subtype
    /// - RTPFB: FMT
    pub count: u8,
    /// Packet type.
    pub packet_type: u8,
    /// Length in 32-bit words minus 1.
    pub length: u16,
}

impl RtcpCommonHeader {
    /// The header at the front of `s`, or why there is none.
    pub open spec fn parsed(s: Seq<u8>) -> Result<RtcpCommonHeader, RistErrorView> {
        if s.len() < 4 {
            Err(RistErrorView::PacketTooShort { expected: 4, actual: s.len() as int })
        } else if s[0] / 64 != 2 {
            Err(RistErrorView::InvalidRtpVersion(s[0] / 64))
        } else {
            Ok(
                RtcpCommonHeader {
                    version: 2,
                    padding: s[0] / 32 % 2 == 1,
                    count: s[0] % 32,
                    packet_type: s[1],
                    length: octets::u16_at(s, 2),
                },
            )
        }
    }

    pub fn parse(buf: &[u8]) -> (r: Result<Self, RistError>)
        ensures
            match r {
                Ok(h) => Self::parsed(buf@) == Ok::<RtcpCommonHeader, RistErrorView>(h),
                Err(e) => Self::parsed(buf@) == Err::<RtcpCommonHeader, RistErrorView>(e@),
            },
    {
        if buf.len() < 4 {
            return Err(RistError::PacketTooShort { expected: 4, actual: buf.len() });
        }
        let mut r: &[u8] = buf;
        let first: u8 = octets::get_u8(&mut r);
        assert((first >> 6) & 0x03 == first / 64 && ((first >> 5) & 0x01 != 0) == (first / 32 % 2
            == 1) && first & 0x1F == first % 32) by (bit_vector);
        let version: u8 = (first >> 6) & 0x03;
        if version != 2 {
            return Err(RistError::InvalidRtpVersion(version));
        }
        let padding = (first >> 5) & 0x01 != 0;
        let count: u8 = first & 0x1F;
        let packet_type: u8 = octets::get_u8(&mut r);
        let length: u16 = octets::get_u16(&mut r);
        Ok(RtcpCommonHeader { version, padding, count, packet_type, length })
    }

    /// Total size of this RTCP packet in bytes (including the 4-byte common header).
    pub open spec fn size(self) -> int {
        (self.length + 1) * 4
    }

    /// Total size of this RTCP packet in bytes (including the 4-byte common header).
    pub fn packet_size(&self) -> (n: usize)
        ensures
            n == self.size(),
    {
        (self.length as usize + 1) * 4
    }
}

/// A parsed RTCP packet.
#[derive(Debug)]
pub enum RtcpPacket {
    SenderReport(SenderReport),
    ReceiverReport(ReceiverReport),
    Sdes(Sdes),
    Nack(NackPacket),
    App(RistApp),
    /// Unknown packet type, preserved but not parsed.
    Unknown { packet_type: u8, data: Vec<u8> },
}

/// An [`RtcpPacket`] by the views of its parts.
#[verifier::ext_equal]
pub enum RtcpPacketView {
    SenderReport(SenderReport),
    ReceiverReport(ReceiverReportView),
    Sdes(SdesView),
    Nack(NackPacketView),
    App(RistAppView),
    Unknown { packet_type: u8, data: Seq<u8> },
}

impl View for RtcpPacket {
    type V = RtcpPacketView;

    open spec fn view(&self) -> RtcpPacketView {
        match *self {
            RtcpPacket::SenderReport(sr) => RtcpPacketView::SenderReport(sr),
            RtcpPacket::ReceiverReport(rr) => RtcpPacketView::ReceiverReport(rr@),
            RtcpPacket::Sdes(sdes) => RtcpPacketView::Sdes(sdes@),
            RtcpPacket::Nack(nack) => RtcpPacketView::Nack(nack@),
            RtcpPacket::App(app) => RtcpPacketView::App(app@),
            RtcpPacket::Unknown { packet_type, data } => RtcpPacketView::Unknown {
                packet_type,
                data: data@,
            },
        }
    }
}

impl Clone for RtcpPacket {
    fn clone(&self) -> (p: Self)
        ensures
            p@ == self@,
    {
        match self {
            RtcpPacket::SenderReport(sr) => RtcpPacket::SenderReport(*sr),
            RtcpPacket::ReceiverReport(rr) => RtcpPacket::ReceiverReport(rr.clone()),
            RtcpPacket::Sdes(sdes) => RtcpPacket::Sdes(sdes.clone()),
            RtcpPacket::Nack(nack) => RtcpPacket::Nack(nack.clone()),
            RtcpPacket::App(app) => RtcpPacket::App(app.clone()),
            RtcpPacket::Unknown { packet_type, data } => RtcpPacket::Unknown {
                packet_type: *packet_type,
                data: octets::to_vec(data.as_slice()),
            },
        }
    }
}

impl RtcpPacketView {
    /// The packet that `header` and `payload` make up. One that its format
    /// rejects is kept as unknown.
    #[verifier::opaque]
    pub open spec fn read(header: RtcpCommonHeader, payload: Seq<u8>) -> RtcpPacketView {
        let unknown = RtcpPacketView::Unknown { packet_type: header.packet_type, data: payload };
        if header.packet_type == RTCP_PT_SR {
            match SenderReport::parsed(payload) {
                Ok(sr) => RtcpPacketView::SenderReport(sr),
                Err(_) => unknown,
            }
        } else if header.packet_type == RTCP_PT_RR {
            match ReceiverReportView::parsed(payload, header.count) {
                Ok(rr) => RtcpPacketView::ReceiverReport(rr),
                Err(_) => unknown,
            }
        } else if header.packet_type == RTCP_PT_SDES {
            match SdesView::parsed(payload) {
                Ok(sdes) => RtcpPacketView::Sdes(sdes),
                Err(_) => unknown,
            }
        } else if header.packet_type == RTCP_PT_RTPFB {
            match NackPacketView::parsed(payload, header.count, payload.len() as int) {
                Ok(nack) => RtcpPacketView::Nack(nack),
                Err(_) => unknown,
            }
        } else if header.packet_type == RTCP_PT_APP {
            match RistAppView::parsed(payload, header.count) {
                Ok(app) => RtcpPacketView::App(app),
                Err(_) => unknown,
            }
        } else {
            unknown
        }
    }

    /// The bytes of the packet; none for an unknown one.
    #[verifier::opaque]
    pub open spec fn wire(self) -> Seq<u8> {
        match self {
            RtcpPacketView::SenderReport(sr) => sr.wire(),
            RtcpPacketView::ReceiverReport(rr) => rr.wire(),
            RtcpPacketView::Sdes(sdes) => sdes.wire(),
            RtcpPacketView::Nack(nack) => nack.wire(),
            RtcpPacketView::App(app) => app.wire(),
            RtcpPacketView::Unknown { .. } => Seq::empty(),
        }
    }

    /// Whether serializing the packet loses nothing: it is of a known type,
    /// and each of its fields fits its place.
    pub open spec fn fits(self) -> bool {
        match self {
            RtcpPacketView::SenderReport(_) => true,
            RtcpPacketView::ReceiverReport(rr) => rr.fits(),
            RtcpPacketView::Sdes(sdes) => sdes.fits(),
            RtcpPacketView::Nack(nack) => nack.fits(),
            RtcpPacketView::App(app) => app.fits(),
            RtcpPacketView::Unknown { .. } => false,
        }
    }
}

/// The views of a run of packets.
pub open spec fn packet_views(packets: Seq<RtcpPacket>) -> Seq<RtcpPacketView> {
    packets.map_values(|p: RtcpPacket| p@)
}

/// The bytes of a run of packets, one after another.
pub open spec fn compound_wire(packets: Seq<RtcpPacketView>) -> Seq<u8>
    decreases packets.len(),
{
    if packets.len() == 0 {
        Seq::empty()
    } else {
        packets[0].wire() + compound_wire(packets.skip(1))
    }
}

/// A packet more at the end adds its bytes at the end.
pub proof fn lemma_compound_push(packets: Seq<RtcpPacketView>, p: RtcpPacketView)
    ensures
        compound_wire(packets.push(p)) == compound_wire(packets) + p.wire(),
    decreases packets.len(),
{
    let more = packets.push(p);
    if packets.len() == 0 {
        assert(compound_wire(more.skip(1)) =~= Seq::empty());
        assert(compound_wire(packets) =~= Seq::empty());
        assert(more[0] == p);
        assert(compound_wire(more) =~= compound_wire(packets) + p.wire());
    } else {
        lemma_compound_push(packets.skip(1), p);
        assert(more.skip(1) =~= packets.skip(1).push(p));
        assert(compound_wire(more) =~= compound_wire(packets) + p.wire());
    }
}

/// The packets in the datagram `s`, up to the first that is cut off, or why
/// the datagram is rejected: a header with a wrong version.
pub open spec fn compound_parsed(s: Seq<u8>) -> Result<Seq<RtcpPacketView>, RistErrorView>
    decreases s.len(),
{
    if s.len() < 4 {
        Ok(Seq::empty())
    } else {
        match RtcpCommonHeader::parsed(s) {
            Err(e) => Err(e),
            Ok(header) => if header.size() > s.len() {
                Ok(Seq::empty())
            } else {
                let first = RtcpPacketView::read(header, s.subrange(4, header.size()));
                match compound_parsed(s.skip(header.size())) {
                    Err(e) => Err(e),
                    Ok(rest) => Ok(seq![first] + rest),
                }
            },
        }
    }
}

/// A compound RTCP packet containing multiple sub-packets.
#[derive(Debug)]
pub struct RtcpCompound {
    pub packets: Vec<RtcpPacket>,
}

impl View for RtcpCompound {
    type V = Seq<RtcpPacketView>;

    open spec fn view(&self) -> Seq<RtcpPacketView> {
        packet_views(self.packets@)
    }
}

impl RtcpPacket {
    /// Parses the payload of one packet. A packet that its format rejects is
    /// kept as unknown: a peer's extension must not hide the NACK that
    /// follows it in the same datagram.
    fn read(header: &RtcpCommonHeader, payload: &[u8]) -> (p: RtcpPacket)
        ensures
            p@ == RtcpPacketView::read(*header, payload@),
    {
        proof {
            reveal(RtcpPacketView::read);
        }
        let known: Option<RtcpPacket> = match header.packet_type {
            RTCP_PT_SR => match SenderReport::parse(payload) {
                Ok(sr) => Some(RtcpPacket::SenderReport(sr)),
                Err(_) => None,
            },
            RTCP_PT_RR => match ReceiverReport::parse(payload, header.count) {
                Ok(rr) => Some(RtcpPacket::ReceiverReport(rr)),
                Err(_) => None,
            },
            RTCP_PT_SDES => match Sdes::parse(payload) {
                Ok(sdes) => Some(RtcpPacket::Sdes(sdes)),
                Err(_) => None,
            },
            RTCP_PT_RTPFB => match NackPacket::parse(payload, header.count, payload.len()) {
                Ok(nack) => Some(RtcpPacket::Nack(nack)),
                Err(_) => None,
            },
            RTCP_PT_APP => match RistApp::parse(payload, header.count) {
                Ok(app) => Some(RtcpPacket::App(app)),
                Err(_) => None,
            },
            _ => None,
        };
        match known {
            Some(p) => p,
            None => RtcpPacket::Unknown {
                packet_type: header.packet_type,
                data: octets::to_vec(payload),
            },
        }
    }

    /// The bytes of the packet; none for an unknown one.
    fn serialize(&self) -> (b: BytesMut)
        requires
            self@.wire().len() <= isize::MAX,
        ensures
            octets::written(b) == self@.wire(),
    {
        proof {
            reveal(RtcpPacketView::wire);
            match self@ {
                RtcpPacketView::ReceiverReport(rr) => rtcp_rr::lemma_wire_len(rr),
                RtcpPacketView::Nack(nack) => rtcp_nack::law_nack_reads_back(nack),
                _ => {},
            }
        }
        match self {
            RtcpPacket::SenderReport(sr) => sr.serialize(),
            RtcpPacket::ReceiverReport(rr) => rr.serialize(),
            RtcpPacket::Sdes(sdes) => sdes.serialize(),
            RtcpPacket::Nack(nack) => nack.serialize(),
            RtcpPacket::App(app) => app.serialize(),
            RtcpPacket::Unknown { .. } => octets::new_buffer(0),
        }
    }
}

impl RtcpCompound {
    /// Parse a compound RTCP packet from a UDP datagram.
    pub fn parse(buf: &[u8]) -> (r: Result<Self, RistError>)
        ensures
            match r {
                Ok(c) => compound_parsed(buf@) == Ok::<Seq<RtcpPacketView>, RistErrorView>(c@),
                Err(e) => compound_parsed(buf@) == Err::<Seq<RtcpPacketView>, RistErrorView>(e@),
            },
    {
        let mut packets: Vec<RtcpPacket> = Vec::new();
        let mut offset: usize = 0;
        let mut truncated = false;
        assert(buf@.skip(0) =~= buf@);
        proof {
            lemma_prefix(Seq::empty(), compound_parsed(buf@));
        }
        while !truncated && buf.len() - offset >= 4
            invariant
                offset <= buf@.len(),
                truncated ==> compound_parsed(buf@) == Ok::<Seq<RtcpPacketView>, RistErrorView>(
                    packet_views(packets@),
                ),
                !truncated ==> compound_parsed(buf@) == prefixed(
                    packet_views(packets@),
                    compound_parsed(buf@.skip(offset as int)),
                ),
            decreases
                buf@.len() - offset,
                if truncated {
                    0int
                } else {
                    1
                },
        {
            let ghost left = buf@.skip(offset as int);
            let rest: &[u8] = &buf[offset..buf.len()];
            assert(rest@ =~= left);
            let header: RtcpCommonHeader = match RtcpCommonHeader::parse(rest) {
                Ok(h) => h,
                Err(e) => {
                    return Err(e);
                },
            };
            let pkt_size: usize = header.packet_size();
            if pkt_size > buf.len() - offset {
                truncated = true;
                assert(packet_views(packets@) + Seq::<RtcpPacketView>::empty() =~= packet_views(
                    packets@,
                ));
            } else {
                let payload: &[u8] = &buf[offset + 4..offset + pkt_size];
                assert(payload@ =~= left.subrange(4, pkt_size as int));
                let packet = RtcpPacket::read(&header, payload);
                proof {
                    assert(left.skip(pkt_size as int) =~= buf@.skip(offset + pkt_size));
                    assert(packet_views(packets@.push(packet)) =~= packet_views(packets@).push(
                        packet@,
                    ));
                    lemma_one_more(
                        packet_views(packets@),
                        packet@,
                        compound_parsed(left.skip(pkt_size as int)),
                    );
                }
                packets.push(packet);
                offset = offset + pkt_size;
            }
        }
        assert(!truncated ==> packet_views(packets@) + Seq::<RtcpPacketView>::empty()
            =~= packet_views(packets@));
        Ok(RtcpCompound { packets })
    }

    /// Serialize all sub-packets into a single compound packet buffer.
    /// Unknown packets are skipped.
    pub fn serialize(&self) -> (b: BytesMut)
        requires
            compound_wire(self@).len() <= isize::MAX,
        ensures
            octets::written(b) == compound_wire(self@),
    {
        let mut buf: BytesMut = octets::new_buffer(0);
        let mut i: usize = 0;
        assert(self@.skip(0) =~= self@);
        while i < self.packets.len()
            invariant
                i <= self.packets@.len(),
                compound_wire(self@).len() <= isize::MAX,
                octets::written(buf) + compound_wire(self@.skip(i as int)) == compound_wire(self@),
            decreases self.packets@.len() - i,
        {
            proof {
                let left = self@.skip(i as int);
                assert(left[0] == self.packets@[i as int]@);
                assert(left.skip(1) =~= self@.skip(i + 1));
                assert(octets::written(buf) + (left[0].wire() + compound_wire(self@.skip(i + 1)))
                    =~= octets::written(buf) + left[0].wire() + compound_wire(self@.skip(i + 1)));
            }
            let one: BytesMut = self.packets[i].serialize();
            octets::put_slice(&mut buf, octets::written_slice(&one));
            i = i + 1;
        }
        assert(octets::written(buf) =~= compound_wire(self@)) by {
            assert(self@.skip(i as int).len() == 0);
        }
        buf
    }
}

/// `packets` in front of what `rest` parsed to.
spec fn prefixed(
    packets: Seq<RtcpPacketView>,
    rest: Result<Seq<RtcpPacketView>, RistErrorView>,
) -> Result<Seq<RtcpPacketView>, RistErrorView> {
    match rest {
        Err(e) => Err(e),
        Ok(more) => Ok(packets + more),
    }
}

proof fn lemma_prefix(
    packets: Seq<RtcpPacketView>,
    rest: Result<Seq<RtcpPacketView>, RistErrorView>,
)
    requires
        packets.len() == 0,
    ensures
        prefixed(packets, rest) == rest,
{
    if rest is Ok {
        assert(packets + rest->Ok_0 =~= rest->Ok_0);
    }
}

proof fn lemma_one_more(
    packets: Seq<RtcpPacketView>,
    next: RtcpPacketView,
    rest: Result<Seq<RtcpPacketView>, RistErrorView>,
)
    ensures
        prefixed(packets, prefixed(seq![next], rest)) == prefixed(packets.push(next), rest),
{
    if rest is Ok {
        assert(packets + (seq![next] + rest->Ok_0) =~= packets.push(next) + rest->Ok_0);
    }
}

/// The common header of a serialized packet reads back, and counts the
/// packet's size.
proof fn lemma_header_reads_back(first: u8, packet_type: u8, length: u16, rest: Seq<u8>)
    requires
        0x80 <= first < 0xa0,
    ensures
        RtcpCommonHeader::parsed(common::header_wire(first, packet_type, length) + rest) == Ok::<
            RtcpCommonHeader,
            RistErrorView,
        >(plain_header(first, packet_type, length)),
{
    let s = common::header_wire(first, packet_type, length) + rest;
    octets::law_be16_reads_back(s, 2, length);
}

/// Whether packet `p`, serialized in front of `rest`, reads back as it was.
pub open spec fn reads_back(p: RtcpPacketView, rest: Seq<u8>) -> bool {
    let s = p.wire() + rest;
    match RtcpCommonHeader::parsed(s) {
        Err(_) => false,
        Ok(header) => {
            &&& header.size() == p.wire().len()
            &&& RtcpPacketView::read(header, s.subrange(4, header.size())) == p
        },
    }
}

/// The common header without padding that starts with the byte `first`.
spec fn plain_header(first: u8, packet_type: u8, length: u16) -> RtcpCommonHeader {
    RtcpCommonHeader {
        version: 2,
        padding: false,
        count: (first - 0x80) as u8,
        packet_type,
        length,
    }
}

/// A packet whose header and body read as it does reads back.
proof fn lemma_parts_read_back(
    p: RtcpPacketView,
    first: u8,
    packet_type: u8,
    length: u16,
    body: Seq<u8>,
    rest: Seq<u8>,
)
    requires
        0x80 <= first < 0xa0,
        p.wire() == common::header_wire(first, packet_type, length) + body,
        (length + 1) * 4 == 4 + body.len(),
        RtcpPacketView::read(plain_header(first, packet_type, length), body) == p,
    ensures
        reads_back(p, rest),
{
    let s = p.wire() + rest;
    lemma_header_reads_back(first, packet_type, length, body + rest);
    assert(s =~= common::header_wire(first, packet_type, length) + (body + rest));
    assert(s.subrange(4, 4 + body.len() as int) =~= body);
}

proof fn lemma_sr_reads_back(sr: SenderReport, rest: Seq<u8>)
    ensures
        reads_back(RtcpPacketView::SenderReport(sr), rest),
{
    let p = RtcpPacketView::SenderReport(sr);
    let body = sr.body();
    rtcp_sr::law_sender_report_reads_back(sr, Seq::empty());
    assert(body + Seq::<u8>::empty() =~= body);
    let first: u8 = 0x80;
    let length: u16 = 6;
    assert(p.wire() == common::header_wire(first, RTCP_PT_SR, length) + body) by {
        reveal(RtcpPacketView::wire);
    }
    assert(RtcpPacketView::read(plain_header(first, RTCP_PT_SR, length), body) == p) by {
        reveal(RtcpPacketView::read);
    }
    lemma_parts_read_back(p, first, RTCP_PT_SR, length, body, rest);
}

proof fn lemma_rr_reads_back(rr: ReceiverReportView, rest: Seq<u8>)
    requires
        rr.fits(),
    ensures
        reads_back(RtcpPacketView::ReceiverReport(rr), rest),
{
    let p = RtcpPacketView::ReceiverReport(rr);
    let body = rr.body();
    let n = rr.reports.len();
    assert(n % 32 == n && n % 256 == n);
    rtcp_rr::law_receiver_report_reads_back(rr);
    let first: u8 = (0x80 + n) as u8;
    let length: u16 = (1 + n * 6) as u16;
    assert(p.wire() == common::header_wire(first, RTCP_PT_RR, length) + body) by {
        reveal(RtcpPacketView::wire);
    }
    assert(RtcpPacketView::read(plain_header(first, RTCP_PT_RR, length), body) == p) by {
        reveal(RtcpPacketView::read);
    }
    lemma_parts_read_back(p, first, RTCP_PT_RR, length, body, rest);
}

proof fn lemma_sdes_reads_back(sdes: SdesView, rest: Seq<u8>)
    requires
        sdes.fits(),
    ensures
        reads_back(RtcpPacketView::Sdes(sdes), rest),
{
    let p = RtcpPacketView::Sdes(sdes);
    let body = sdes.body();
    rtcp_sdes::law_sdes_reads_back(sdes);
    rtcp_sdes::law_sdes_is_aligned(sdes);
    let first: u8 = 0x81;
    let length: u16 = (body.len() / 4 % 65_536) as u16;
    assert(p.wire() == common::header_wire(first, RTCP_PT_SDES, length) + body) by {
        reveal(RtcpPacketView::wire);
    }
    assert(RtcpPacketView::read(plain_header(first, RTCP_PT_SDES, length), body) == p) by {
        reveal(RtcpPacketView::read);
    }
    lemma_parts_read_back(p, first, RTCP_PT_SDES, length, body, rest);
}

proof fn lemma_nack_reads_back(nack: NackPacketView, rest: Seq<u8>)
    requires
        nack.fits(),
    ensures
        reads_back(RtcpPacketView::Nack(nack), rest),
{
    let p = RtcpPacketView::Nack(nack);
    let body = nack.body();
    rtcp_nack::law_nack_reads_back(nack);
    let first: u8 = (0x80 + nack.entries.fmt()) as u8;
    let length: u16 = ((2 + nack.entries.pairs().len()) % 65_536) as u16;
    assert(p.wire() == common::header_wire(first, RTCP_PT_RTPFB, length) + body) by {
        reveal(RtcpPacketView::wire);
    }
    assert(RtcpPacketView::read(plain_header(first, RTCP_PT_RTPFB, length), body) == p) by {
        reveal(RtcpPacketView::read);
    }
    lemma_parts_read_back(p, first, RTCP_PT_RTPFB, length, body, rest);
}

proof fn lemma_app_reads_back(app: RistAppView, rest: Seq<u8>)
    requires
        app.fits(),
    ensures
        reads_back(RtcpPacketView::App(app), rest),
{
    let p = RtcpPacketView::App(app);
    let body = app.body();
    rtcp_app::law_app_reads_back(app);
    let first: u8 = (0x80 + app.subtype()) as u8;
    let length: u16 = (body.len() / 4 % 65_536) as u16;
    assert(p.wire() == common::header_wire(first, RTCP_PT_APP, length) + body) by {
        reveal(RtcpPacketView::wire);
    }
    assert(RtcpPacketView::read(plain_header(first, RTCP_PT_APP, length), body) == p) by {
        reveal(RtcpPacketView::read);
    }
    lemma_parts_read_back(p, first, RTCP_PT_APP, length, body, rest);
}

/// A serialized packet reads back as it was, whatever follows it.
pub proof fn law_packet_reads_back(p: RtcpPacketView, rest: Seq<u8>)
    requires
        p.fits(),
    ensures
        reads_back(p, rest),
{
    match p {
        RtcpPacketView::SenderReport(sr) => lemma_sr_reads_back(sr, rest),
        RtcpPacketView::ReceiverReport(rr) => lemma_rr_reads_back(rr, rest),
        RtcpPacketView::Sdes(sdes) => lemma_sdes_reads_back(sdes, rest),
        RtcpPacketView::Nack(nack) => lemma_nack_reads_back(nack, rest),
        RtcpPacketView::App(app) => lemma_app_reads_back(app, rest),
        RtcpPacketView::Unknown { .. } => {},
    }
}

/// A serialized compound reads back as it was, packet by packet.
pub proof fn law_compound_reads_back(packets: Seq<RtcpPacketView>)
    requires
        forall|i: int| 0 <= i < packets.len() ==> (#[trigger] packets[i]).fits(),
    ensures
        compound_parsed(compound_wire(packets)) == Ok::<Seq<RtcpPacketView>, RistErrorView>(
            packets,
        ),
    decreases packets.len(),
{
    if packets.len() == 0 {
        assert(packets =~= Seq::empty());
    } else {
        let rest = packets.skip(1);
        let s = compound_wire(packets);
        let size = packets[0].wire().len() as int;
        assert forall|i: int| 0 <= i < rest.len() implies (#[trigger] rest[i]).fits() by {
            assert(rest[i] == packets[i + 1]);
        }
        law_compound_reads_back(rest);
        law_packet_reads_back(packets[0], compound_wire(rest));
        assert(s.skip(size) =~= compound_wire(rest));
        assert(packets =~= seq![packets[0]] + rest);
    }
}

} // verus!
