//! RTCP Sender Report (SR) packet (RFC 3550 Section 6.4.1).
//!
//! RIST SR packets have RC=0 (no reception report blocks) and length=6.
//! See TR-06-1:2020 Section 5.2.2.

use bytes::BytesMut;
use vstd::prelude::*;

use crate::error::{RistError, RistErrorView};
use crate::octets;
use crate::packet::common;

verus! {

broadcast use {octets::lemma_be16_len, octets::lemma_be32_len};

/// RTCP packet type for Sender Report.
pub const RTCP_PT_SR: u8 = 200;

/// RIST Sender Report. Always has RC=0, length=6.
#[derive(Debug, Clone, Copy, PartialEq, Eq, Structural)]
pub struct SenderReport {
    /// SSRC of the sender.
    pub ssrc: u32,
    /// NTP timestamp, most significant 32 bits (seconds since 1900-01-01).
    pub ntp_msw: u32,
    /// NTP timestamp, least significant 32 bits (fractional seconds).
    pub ntp_lsw: u32,
    /// RTP timestamp corresponding to the NTP timestamp.
    pub rtp_timestamp: u32,
    /// Total RTP data packets sent.
    pub sender_packet_count: u32,
    /// Total RTP payload bytes sent.
    pub sender_octet_count: u32,
}

impl SenderReport {
    /// Size of SR in bytes (4-byte common header + 24 bytes sender info).
    pub const SIZE: usize = 28;

    /// The bytes after the common header.
    pub open spec fn body(self) -> Seq<u8> {
        octets::be32(self.ssrc) + octets::be32(self.ntp_msw) + octets::be32(self.ntp_lsw)
            + octets::be32(self.rtp_timestamp) + octets::be32(self.sender_packet_count)
            + octets::be32(self.sender_octet_count)
    }

    /// The packet with its common header: V=2, P=0, RC=0, PT=200, length=6.
    pub open spec fn wire(self) -> Seq<u8> {
        common::header_wire(0x80, RTCP_PT_SR, 6) + self.body()
    }

    /// The report in `s`, which starts past the common header, or why there is none.
    pub open spec fn parsed(s: Seq<u8>) -> Result<SenderReport, RistErrorView> {
        if s.len() < 24 {
            Err(RistErrorView::PacketTooShort { expected: 24, actual: s.len() as int })
        } else {
            Ok(
                SenderReport {
                    ssrc: octets::u32_at(s, 0),
                    ntp_msw: octets::u32_at(s, 4),
                    ntp_lsw: octets::u32_at(s, 8),
                    rtp_timestamp: octets::u32_at(s, 12),
                    sender_packet_count: octets::u32_at(s, 16),
                    sender_octet_count: octets::u32_at(s, 20),
                },
            )
        }
    }

    /// Parse from buffer (after common RTCP header has been read).
    /// `buf` should start at the SSRC field (past the 4-byte common header).
    pub fn parse(buf: &[u8]) -> (r: Result<Self, RistError>)
        ensures
            match r {
                Ok(sr) => Self::parsed(buf@) == Ok::<SenderReport, RistErrorView>(sr),
                Err(e) => Self::parsed(buf@) == Err::<SenderReport, RistErrorView>(e@),
            },
    {
        if buf.len() < 24 {
            return Err(RistError::PacketTooShort { expected: 24, actual: buf.len() });
        }
        let mut r: &[u8] = buf;
        let ssrc: u32 = octets::get_u32(&mut r);
        let ntp_msw: u32 = octets::get_u32(&mut r);
        let ntp_lsw: u32 = octets::get_u32(&mut r);
        let rtp_timestamp: u32 = octets::get_u32(&mut r);
        let sender_packet_count: u32 = octets::get_u32(&mut r);
        let sender_octet_count: u32 = octets::get_u32(&mut r);
        Ok(
            SenderReport {
                ssrc,
                ntp_msw,
                ntp_lsw,
                rtp_timestamp,
                sender_packet_count,
                sender_octet_count,
            },
        )
    }

    /// Serialize the full SR packet including the common RTCP header.
    pub fn serialize(&self) -> (b: BytesMut)
        ensures
            octets::written(b) == self.wire(),
    {
        let mut buf: BytesMut = octets::new_buffer(28);
        common::put_header(&mut buf, 0x80, RTCP_PT_SR, 6);
        octets::put_u32(&mut buf, self.ssrc);
        octets::put_u32(&mut buf, self.ntp_msw);
        octets::put_u32(&mut buf, self.ntp_lsw);
        octets::put_u32(&mut buf, self.rtp_timestamp);
        octets::put_u32(&mut buf, self.sender_packet_count);
        octets::put_u32(&mut buf, self.sender_octet_count);
        assert(octets::written(buf) =~= self.wire());
        buf
    }

    /// The middle 32 bits of the NTP timestamp, as `last_sr` in a receiver report.
    pub open spec fn middle_ntp(self) -> int {
        self.ntp_msw % 0x1_0000 * 0x1_0000 + self.ntp_lsw / 0x1_0000
    }

    /// Extract the compact (middle 32 bits) NTP timestamp for use in RR LSR field.
    pub fn compact_ntp(&self) -> (n: u32)
        ensures
            n == self.middle_ntp(),
    {
        let msw: u32 = self.ntp_msw;
        let lsw: u32 = self.ntp_lsw;
        assert(((msw & 0xFFFF) << 16) | ((lsw >> 16) & 0xFFFF) == msw % 0x1_0000 * 0x1_0000 + lsw
            / 0x1_0000) by (bit_vector);
        ((msw & 0xFFFF) << 16) | ((lsw >> 16) & 0xFFFF)
    }
}

/// A serialized sender report reads back as it was, whatever follows it.
pub proof fn law_sender_report_reads_back(sr: SenderReport, rest: Seq<u8>)
    ensures
        SenderReport::parsed(sr.body() + rest) == Ok::<SenderReport, RistErrorView>(sr),
        sr.wire() == sr.wire().take(4) + sr.body(),
        sr.wire().len() == SenderReport::SIZE,
{
    let s = sr.body() + rest;
    octets::law_be32_reads_back(s, 0, sr.ssrc);
    octets::law_be32_reads_back(s, 4, sr.ntp_msw);
    octets::law_be32_reads_back(s, 8, sr.ntp_lsw);
    octets::law_be32_reads_back(s, 12, sr.rtp_timestamp);
    octets::law_be32_reads_back(s, 16, sr.sender_packet_count);
    octets::law_be32_reads_back(s, 20, sr.sender_octet_count);
    assert(sr.wire() =~= sr.wire().take(4) + sr.body());
}

} // verus!
