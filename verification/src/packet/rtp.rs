//! RTP packet header parsing and serialization (RFC 3550).
//!
//! RIST uses standard RTP for media transport. The baseline protocol is
//! SMPTE-2022-1/2 for MPEG-2 TS over RTP.

use bytes::{Bytes, BytesMut};
use vstd::prelude::*;

use crate::error::{RistError, RistErrorView};
use crate::octets;

verus! {

broadcast use {octets::lemma_be16_len, octets::lemma_be32_len};

/// Minimum RTP header size (fixed part, no CSRC or extensions).
pub const RTP_HEADER_SIZE: usize = 12;

/// RTP header (RFC 3550 Section 5.1).
#[derive(Debug, Clone, Copy, PartialEq, Eq, Structural)]
pub struct RtpHeader {
    /// RTP version, always 2.
    pub version: u8,
    /// Padding flag.
    pub padding: bool,
    /// Whether an extension header follows the fixed header.
    pub extension: bool,
    /// Number of CSRC identifiers following the fixed header.
    pub csrc_count: u8,
    /// Marker bit (application-specific, e.g. frame boundary).
    pub marker: bool,
    /// Payload type (7 bits).
    pub payload_type: u8,
    /// Sequence number (16 bits, wraps around).
    pub sequence_number: u16,
    /// RTP timestamp (32 bits, clock rate depends on payload type).
    pub timestamp: u32,
    /// Synchronization source identifier.
    pub ssrc: u32,
}

impl RtpHeader {
    /// Whether every field fits its place in the header, with version 2.
    pub open spec fn fits(self) -> bool {
        &&& self.version == 2
        &&& self.csrc_count < 16
        &&& self.payload_type < 128
    }

    /// The 12 bytes of the fixed header.
    pub open spec fn wire(self) -> Seq<u8> {
        let first = self.version % 4 * 64 + (if self.padding { 32int } else { 0 }) + (
        if self.extension { 16int } else { 0 }) + self.csrc_count % 16;
        let second = (if self.marker { 128int } else { 0 }) + self.payload_type % 128;
        seq![first as u8, second as u8] + octets::be16(self.sequence_number) + octets::be32(
            self.timestamp,
        ) + octets::be32(self.ssrc)
    }

    /// The header in the first 12 bytes of `s`.
    pub open spec fn read(s: Seq<u8>) -> RtpHeader {
        RtpHeader {
            version: s[0] / 64,
            padding: s[0] / 32 % 2 == 1,
            extension: s[0] / 16 % 2 == 1,
            csrc_count: s[0] % 16,
            marker: s[1] / 128 == 1,
            payload_type: s[1] % 128,
            sequence_number: octets::u16_at(s, 2),
            timestamp: octets::u32_at(s, 4),
            ssrc: octets::u32_at(s, 8),
        }
    }

    /// The header at the front of `s` and its size with the CSRC list, or why
    /// there is none.
    pub open spec fn parsed(s: Seq<u8>) -> Result<(RtpHeader, int), RistErrorView> {
        let header = Self::read(s);
        let size = RTP_HEADER_SIZE + header.csrc_count * 4;
        if s.len() < RTP_HEADER_SIZE {
            Err(
                RistErrorView::PacketTooShort {
                    expected: RTP_HEADER_SIZE as int,
                    actual: s.len() as int,
                },
            )
        } else if header.version != 2 {
            Err(RistErrorView::InvalidRtpVersion(header.version))
        } else if s.len() < size {
            Err(RistErrorView::PacketTooShort { expected: size, actual: s.len() as int })
        } else {
            Ok((header, size))
        }
    }

    /// Parse an RTP header from the given buffer.
    /// Returns the header and the number of bytes consumed (including CSRC entries).
    pub fn parse(buf: &[u8]) -> (r: Result<(Self, usize), RistError>)
        ensures
            match r {
                Ok((header, size)) => Self::parsed(buf@) == Ok::<(RtpHeader, int), RistErrorView>(
                    (header, size as int),
                ),
                Err(e) => Self::parsed(buf@) == Err::<(RtpHeader, int), RistErrorView>(e@),
            },
    {
        if buf.len() < RTP_HEADER_SIZE {
            return Err(
                RistError::PacketTooShort { expected: RTP_HEADER_SIZE, actual: buf.len() },
            );
        }
        let mut r: &[u8] = buf;
        let first: u8 = octets::get_u8(&mut r);
        assert((first >> 6) & 0x03 == first / 64 && ((first >> 5) & 0x01 != 0) == (first / 32 % 2
            == 1) && ((first >> 4) & 0x01 != 0) == (first / 16 % 2 == 1) && first & 0x0F == first
            % 16) by (bit_vector);
        let version: u8 = (first >> 6) & 0x03;
        if version != 2 {
            return Err(RistError::InvalidRtpVersion(version));
        }
        let padding = (first >> 5) & 0x01 != 0;
        let extension = (first >> 4) & 0x01 != 0;
        let csrc_count: u8 = first & 0x0F;

        let second: u8 = octets::get_u8(&mut r);
        assert(((second >> 7) & 0x01 != 0) == (second / 128 == 1) && second & 0x7F == second % 128)
            by (bit_vector);
        let marker = (second >> 7) & 0x01 != 0;
        let payload_type: u8 = second & 0x7F;

        let sequence_number: u16 = octets::get_u16(&mut r);
        let timestamp: u32 = octets::get_u32(&mut r);
        let ssrc: u32 = octets::get_u32(&mut r);

        let header_size: usize = RTP_HEADER_SIZE + (csrc_count as usize) * 4;
        if buf.len() < header_size {
            return Err(RistError::PacketTooShort { expected: header_size, actual: buf.len() });
        }
        Ok(
            (
                RtpHeader {
                    version,
                    padding,
                    extension,
                    csrc_count,
                    marker,
                    payload_type,
                    sequence_number,
                    timestamp,
                    ssrc,
                },
                header_size,
            ),
        )
    }

    /// Serialize the RTP header into a new buffer.
    /// Does not include CSRC entries or extensions.
    pub fn serialize(&self) -> (b: Bytes)
        ensures
            octets::content(b) == self.wire(),
    {
        let mut buf: BytesMut = octets::new_buffer(RTP_HEADER_SIZE);
        let version: u8 = self.version;
        let padding: u8 = if self.padding { 1 } else { 0 };
        let extension: u8 = if self.extension { 1 } else { 0 };
        let marker: u8 = if self.marker { 1 } else { 0 };
        let csrc_count: u8 = self.csrc_count;
        let payload_type: u8 = self.payload_type;
        assert((version << 6) | (padding << 5) | (extension << 4) | (csrc_count & 0x0F) == version
            % 4 * 64 + padding * 32 + extension * 16 + csrc_count % 16) by (bit_vector)
            requires
                padding <= 1,
                extension <= 1,
        ;
        assert((marker << 7) | (payload_type & 0x7F) == marker * 128 + payload_type % 128)
            by (bit_vector)
            requires
                marker <= 1,
        ;
        let first: u8 = (version << 6) | (padding << 5) | (extension << 4) | (csrc_count & 0x0F);
        octets::put_u8(&mut buf, first);
        let second: u8 = (marker << 7) | (payload_type & 0x7F);
        octets::put_u8(&mut buf, second);
        octets::put_u16(&mut buf, self.sequence_number);
        octets::put_u32(&mut buf, self.timestamp);
        octets::put_u32(&mut buf, self.ssrc);
        assert(octets::written(buf) =~= self.wire());
        octets::freeze(buf)
    }

    /// Whether the packet is a retransmission: RIST flags one by the lowest
    /// bit of the SSRC.
    pub fn is_retransmit(&self) -> (b: bool)
        ensures
            b == (self.ssrc % 2 == 1),
    {
        self.ssrc % 2 == 1
    }

    /// Create a new RTP header for MPEG-2 TS (payload type 33, per SMPTE 2022-1/2).
    pub fn new_ts(ssrc: u32, seq: u16, timestamp: u32) -> (h: Self)
        ensures
            h == (RtpHeader {
                version: 2,
                padding: false,
                extension: false,
                csrc_count: 0,
                marker: false,
                payload_type: 33,
                sequence_number: seq,
                timestamp,
                ssrc,
            }),
    {
        RtpHeader {
            version: 2,
            padding: false,
            extension: false,
            csrc_count: 0,
            marker: false,
            payload_type: 33,
            sequence_number: seq,
            timestamp,
            ssrc,
        }
    }
}

/// Full RTP packet: header + payload.
#[derive(Debug)]
pub struct RtpPacket {
    pub header: RtpHeader,
    pub payload: Bytes,
}

/// An [`RtpPacket`] with its payload as a sequence of bytes.
#[verifier::ext_equal]
pub struct RtpPacketView {
    pub header: RtpHeader,
    pub payload: Seq<u8>,
}

impl View for RtpPacket {
    type V = RtpPacketView;

    open spec fn view(&self) -> RtpPacketView {
        RtpPacketView { header: self.header, payload: octets::content(self.payload) }
    }
}

impl Clone for RtpPacket {
    fn clone(&self) -> (p: Self)
        ensures
            p@ == self@,
    {
        RtpPacket { header: self.header, payload: self.payload.clone() }
    }
}

impl RtpPacketView {
    /// The bytes of the fixed header and the payload.
    pub open spec fn wire(self) -> Seq<u8> {
        self.header.wire() + self.payload
    }

    /// The size of the extension header that starts at `at`: a word that ends
    /// in the count of the words after it.
    pub open spec fn extension_size(s: Seq<u8>, at: int) -> int {
        4 + octets::u16_at(s, at + 2) * 4
    }

    /// The packet in `s`, or why there is none.
    pub open spec fn parsed(s: Seq<u8>) -> Result<RtpPacketView, RistErrorView> {
        match RtpHeader::parsed(s) {
            Err(e) => Err(e),
            Ok((header, size)) => if !header.extension {
                Ok(RtpPacketView { header, payload: s.skip(size) })
            } else if s.len() < size + 4 {
                Err(RistErrorView::PacketTooShort { expected: size + 4, actual: s.len() as int })
            } else if s.len() < size + Self::extension_size(s, size) {
                Err(
                    RistErrorView::PacketTooShort {
                        expected: size + Self::extension_size(s, size),
                        actual: s.len() as int,
                    },
                )
            } else {
                Ok(
                    RtpPacketView {
                        header,
                        payload: s.skip(size + Self::extension_size(s, size)),
                    },
                )
            },
        }
    }
}

impl RtpPacket {
    /// Parse an RTP packet from a buffer.
    pub fn parse(buf: &[u8]) -> (r: Result<Self, RistError>)
        ensures
            match r {
                Ok(p) => RtpPacketView::parsed(buf@) == Ok::<RtpPacketView, RistErrorView>(p@),
                Err(e) => RtpPacketView::parsed(buf@) == Err::<RtpPacketView, RistErrorView>(e@),
            },
    {
        let (header, header_size) = match RtpHeader::parse(buf) {
            Ok(parsed) => parsed,
            Err(e) => {
                return Err(e);
            },
        };
        let mut offset: usize = header_size;
        if header.extension {
            if buf.len() < offset + 4 {
                return Err(
                    RistError::PacketTooShort { expected: offset + 4, actual: buf.len() },
                );
            }
            let ext_len_words: usize = buf[offset + 2] as usize * 256 + buf[offset + 3] as usize;
            let ext_total: usize = 4 + ext_len_words * 4;
            if buf.len() < offset + ext_total {
                return Err(
                    RistError::PacketTooShort { expected: offset + ext_total, actual: buf.len() },
                );
            }
            offset = offset + ext_total;
        }
        let rest: &[u8] = &buf[offset..buf.len()];
        assert(rest@ =~= buf@.skip(offset as int));
        let payload: Bytes = octets::copy_octets(rest);
        Ok(RtpPacket { header, payload })
    }

    /// Serialize the full packet (header + payload).
    pub fn serialize(&self) -> (b: Bytes)
        requires
            octets::content(self.payload).len() + RTP_HEADER_SIZE <= isize::MAX,
        ensures
            octets::content(b) == self@.wire(),
    {
        let header_bytes: Bytes = self.header.serialize();
        let header: &[u8] = octets::octet_slice(&header_bytes);
        let payload: &[u8] = octets::octet_slice(&self.payload);
        let mut buf: BytesMut = octets::new_buffer(header.len() + payload.len());
        octets::put_slice(&mut buf, header);
        octets::put_slice(&mut buf, payload);
        assert(octets::written(buf) =~= self@.wire());
        octets::freeze(buf)
    }
}

/// A serialized header reads back as it was, whatever follows it.
pub proof fn law_header_reads_back(h: RtpHeader, rest: Seq<u8>)
    requires
        h.fits(),
        rest.len() >= h.csrc_count * 4,
    ensures
        RtpHeader::parsed(h.wire() + rest) == Ok::<(RtpHeader, int), RistErrorView>(
            (h, RTP_HEADER_SIZE + h.csrc_count * 4),
        ),
{
    let s = h.wire() + rest;
    octets::law_be16_reads_back(s, 2, h.sequence_number);
    octets::law_be32_reads_back(s, 4, h.timestamp);
    octets::law_be32_reads_back(s, 8, h.ssrc);
}

/// An accepted packet starts with the bytes that its header serializes to.
pub proof fn law_header_writes_back(s: Seq<u8>)
    requires
        RtpHeader::parsed(s) is Ok,
    ensures
        RtpHeader::parsed(s)->Ok_0.0.fits(),
        RtpHeader::parsed(s)->Ok_0.0.wire() == s.take(RTP_HEADER_SIZE as int),
{
    let h = RtpHeader::parsed(s)->Ok_0.0;
    octets::law_be16_writes_back(s, 2);
    octets::law_be32_writes_back(s, 4);
    octets::law_be32_writes_back(s, 8);
    assert(h.wire() =~= s.take(12));
}

/// A serialized packet reads back as it was. A header that announces CSRC
/// entries or an extension is left out: neither is serialized.
pub proof fn law_packet_reads_back(p: RtpPacketView)
    requires
        p.header.fits(),
        p.header.csrc_count == 0,
        !p.header.extension,
    ensures
        RtpPacketView::parsed(p.wire()) == Ok::<RtpPacketView, RistErrorView>(p),
{
    law_header_reads_back(p.header, p.payload);
    assert(p.wire().skip(12) =~= p.payload);
}

} // verus!
