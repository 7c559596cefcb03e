//! RTCP APP packets used by RIST (PT=204).
//!
//! Multiple RIST messages share PT=204 with an ASCII name of `"RIST"`. The
//! subtype field (5 bits in the count position of the common RTCP header)
//! selects the payload:
//!
//! | Subtype | Meaning                                 | Size |
//! |--------:|-----------------------------------------|------|
//! | 0       | Range NACK (librist default, interop)   | 12 + 4 N bytes |
//! | 2       | RTT Echo Request (TR-06-1:2020 5.2.6)   | 16 bytes        |
//! | 3       | RTT Echo Response                       | 20 bytes        |
//!
//! `RistApp::parse` accepts any subtype and returns a best-effort variant so
//! a peer's extension doesn't tear down the whole RTCP compound.

use bytes::BytesMut;
use vstd::prelude::*;

use crate::error::{RistError, RistErrorView};
use crate::octets;
use crate::packet::common;

verus! {

broadcast use {octets::lemma_be16_len, octets::lemma_be32_len};

/// RTCP packet type for APP.
pub const RTCP_PT_APP: u8 = 204;

/// Subtype for librist-style Range NACK (PT=204 APP "RIST"). Default NACK
/// format emitted by librist 0.2.11 unless the application explicitly opts
/// into the RFC 4585 PT=205 bitmask form.
pub const RIST_APP_RANGE_NACK: u8 = 0;

/// Subtype for RTT Echo Request.
pub const RTT_ECHO_REQUEST: u8 = 2;

/// Subtype for RTT Echo Response.
pub const RTT_ECHO_RESPONSE: u8 = 3;

/// The ASCII name field of RIST APP packets, "RIST", as a big-endian word.
const RIST_APP_NAME: u32 = 0x5249_5354;

/// RTT Echo Request packet.
#[derive(Debug, Clone, Copy, PartialEq, Eq, Structural)]
pub struct RttEchoRequest {
    /// SSRC of the media source.
    pub ssrc: u32,
    /// Timestamp (64-bit, sender's local time). Opaque, echoed back unchanged.
    pub timestamp_msw: u32,
    pub timestamp_lsw: u32,
}

/// RTT Echo Response packet.
#[derive(Debug, Clone, Copy, PartialEq, Eq, Structural)]
pub struct RttEchoResponse {
    /// SSRC of the media source.
    pub ssrc: u32,
    /// Echoed timestamp from the request.
    pub timestamp_msw: u32,
    pub timestamp_lsw: u32,
    /// Processing delay in microseconds (time between receiving request and sending response).
    pub processing_delay_us: u32,
}

/// librist Range NACK carried inside the APP "RIST" envelope.
///
/// After the common header stand the SSRC of the media source, the name
/// "RIST", and one word per entry: `start` and `extra`, two bytes each.
/// `extra = N` means `N` additional consecutive seqs are lost after `start`,
/// so the total run is `N + 1`.
#[derive(Debug, PartialEq, Eq)]
pub struct RangeNack {
    /// SSRC of the media source whose packets are missing.
    pub media_ssrc: u32,
    /// Range entries, each `(start, extra)`.
    pub entries: Vec<(u16, u16)>,
}

/// Parsed RIST APP packet.
#[derive(Debug, PartialEq, Eq)]
pub enum RistApp {
    RttEchoRequest(RttEchoRequest),
    RttEchoResponse(RttEchoResponse),
    /// librist Range NACK carried as PT=204 APP "RIST" subtype 0.
    RangeNack(RangeNack),
    /// Any other PT=204 APP "RIST" subtype, preserved to keep the
    /// compound-level parse lenient. The `data` is the raw payload
    /// after the common header (i.e., starting with the SSRC field).
    Unknown { subtype: u8, data: Vec<u8> },
}

/// A [`RangeNack`] with its entries as a sequence.
#[verifier::ext_equal]
pub struct RangeNackView {
    pub media_ssrc: u32,
    pub entries: Seq<(u16, u16)>,
}

/// A [`RistApp`] with its lists as sequences.
#[verifier::ext_equal]
pub enum RistAppView {
    RttEchoRequest(RttEchoRequest),
    RttEchoResponse(RttEchoResponse),
    RangeNack(RangeNackView),
    Unknown { subtype: u8, data: Seq<u8> },
}

impl View for RangeNack {
    type V = RangeNackView;

    open spec fn view(&self) -> RangeNackView {
        RangeNackView { media_ssrc: self.media_ssrc, entries: self.entries@ }
    }
}

impl View for RistApp {
    type V = RistAppView;

    open spec fn view(&self) -> RistAppView {
        match *self {
            RistApp::RttEchoRequest(req) => RistAppView::RttEchoRequest(req),
            RistApp::RttEchoResponse(resp) => RistAppView::RttEchoResponse(resp),
            RistApp::RangeNack(nack) => RistAppView::RangeNack(nack@),
            RistApp::Unknown { subtype, data } => RistAppView::Unknown { subtype, data: data@ },
        }
    }
}

impl Clone for RangeNack {
    fn clone(&self) -> (n: Self)
        ensures
            n@ == self@,
    {
        let mut entries: Vec<(u16, u16)> = Vec::with_capacity(self.entries.len());
        while entries.len() < self.entries.len()
            invariant
                entries@.len() <= self.entries@.len(),
                entries@ == self.entries@.take(entries@.len() as int),
            decreases self.entries@.len() - entries@.len(),
        {
            let ghost done = entries@.len() as int;
            let entry: (u16, u16) = self.entries[entries.len()];
            entries.push(entry);
            assert(entries@ =~= self.entries@.take(done + 1));
        }
        assert(entries@ =~= self.entries@);
        RangeNack { media_ssrc: self.media_ssrc, entries }
    }
}

impl Clone for RistApp {
    fn clone(&self) -> (a: Self)
        ensures
            a@ == self@,
    {
        match self {
            RistApp::RttEchoRequest(req) => RistApp::RttEchoRequest(*req),
            RistApp::RttEchoResponse(resp) => RistApp::RttEchoResponse(*resp),
            RistApp::RangeNack(nack) => RistApp::RangeNack(nack.clone()),
            RistApp::Unknown { subtype, data } => {
                let copy: Vec<u8> = data.clone();
                assert(copy@ =~= data@);
                RistApp::Unknown { subtype: *subtype, data: copy }
            },
        }
    }
}

impl RistAppView {
    /// The subtype in the common header.
    pub open spec fn subtype(self) -> u8 {
        match self {
            RistAppView::RttEchoRequest(_) => RTT_ECHO_REQUEST,
            RistAppView::RttEchoResponse(_) => RTT_ECHO_RESPONSE,
            RistAppView::RangeNack(_) => RIST_APP_RANGE_NACK,
            RistAppView::Unknown { subtype, .. } => (subtype % 32) as u8,
        }
    }

    /// The bytes after the common header.
    pub open spec fn body(self) -> Seq<u8> {
        match self {
            RistAppView::RttEchoRequest(req) => octets::be32(req.ssrc) + octets::be32(
                0x5249_5354,
            ) + octets::be32(req.timestamp_msw) + octets::be32(req.timestamp_lsw),
            RistAppView::RttEchoResponse(resp) => octets::be32(resp.ssrc) + octets::be32(
                0x5249_5354,
            ) + octets::be32(resp.timestamp_msw) + octets::be32(resp.timestamp_lsw) + octets::be32(
                resp.processing_delay_us,
            ),
            RistAppView::RangeNack(nack) => octets::be32(nack.media_ssrc) + octets::be32(
                0x5249_5354,
            ) + common::pairs_wire(nack.entries),
            RistAppView::Unknown { data, .. } => data,
        }
    }

    /// The packet with its common header. The length counts the whole words
    /// of the body, modulo 65536.
    pub open spec fn wire(self) -> Seq<u8> {
        common::header_wire(
            (0x80 + self.subtype()) as u8,
            RTCP_PT_APP,
            (self.body().len() / 4 % 65_536) as u16,
        ) + self.body()
    }

    /// The packet of subtype `subtype` in `s`, which starts past the common
    /// header, or why there is none.
    pub open spec fn parsed(s: Seq<u8>, subtype: u8) -> Result<RistAppView, RistErrorView> {
        let ssrc = octets::u32_at(s, 0);
        if s.len() < 8 {
            Err(RistErrorView::PacketTooShort { expected: 8, actual: s.len() as int })
        } else if octets::u32_at(s, 4) != 0x5249_5354 {
            Ok(RistAppView::Unknown { subtype, data: s })
        } else if subtype == RIST_APP_RANGE_NACK {
            Ok(
                RistAppView::RangeNack(
                    RangeNackView {
                        media_ssrc: ssrc,
                        entries: common::pairs_at(s, 8, ((s.len() - 8) / 4) as nat),
                    },
                ),
            )
        } else if subtype == RTT_ECHO_REQUEST {
            if s.len() < 16 {
                Err(RistErrorView::PacketTooShort { expected: 16, actual: s.len() as int })
            } else {
                Ok(
                    RistAppView::RttEchoRequest(
                        RttEchoRequest {
                            ssrc,
                            timestamp_msw: octets::u32_at(s, 8),
                            timestamp_lsw: octets::u32_at(s, 12),
                        },
                    ),
                )
            }
        } else if subtype == RTT_ECHO_RESPONSE {
            if s.len() < 20 {
                Err(RistErrorView::PacketTooShort { expected: 20, actual: s.len() as int })
            } else {
                Ok(
                    RistAppView::RttEchoResponse(
                        RttEchoResponse {
                            ssrc,
                            timestamp_msw: octets::u32_at(s, 8),
                            timestamp_lsw: octets::u32_at(s, 12),
                            processing_delay_us: octets::u32_at(s, 16),
                        },
                    ),
                )
            }
        } else {
            Ok(RistAppView::Unknown { subtype, data: s })
        }
    }

    /// Whether an unknown packet is none that this format knows.
    pub open spec fn is_itself(self) -> bool {
        match self {
            RistAppView::Unknown { subtype, data } => {
                &&& subtype < 32
                &&& data.len() >= 8
                &&& octets::u32_at(data, 4) != 0x5249_5354 || (subtype != RIST_APP_RANGE_NACK
                    && subtype != RTT_ECHO_REQUEST && subtype != RTT_ECHO_RESPONSE)
            },
            _ => true,
        }
    }

    /// Whether serializing the packet into a compound loses nothing: its length
    /// is a whole number of words that the length field can count, and an
    /// unknown packet is none that this format knows.
    pub open spec fn fits(self) -> bool {
        &&& self.body().len() < 65_536 * 4
        &&& self.body().len() % 4 == 0
        &&& self.is_itself()
    }
}

impl RistApp {
    /// Parse from buffer (after common RTCP header has been read).
    /// `subtype` is from the common header (5 bits where RC normally goes).
    ///
    /// Unknown subtypes are preserved as [`RistApp::Unknown`] rather than
    /// returning `Err`: a stray librist extension inside an RTCP compound
    /// must not cause the peer's NACKs (in an earlier or later sub-packet)
    /// to be rejected.
    pub fn parse(buf: &[u8], subtype: u8) -> (r: Result<Self, RistError>)
        ensures
            match r {
                Ok(app) => RistAppView::parsed(buf@, subtype) == Ok::<RistAppView, RistErrorView>(
                    app@,
                ),
                Err(e) => RistAppView::parsed(buf@, subtype) == Err::<RistAppView, RistErrorView>(
                    e@,
                ),
            },
    {
        if buf.len() < 8 {
            return Err(RistError::PacketTooShort { expected: 8, actual: buf.len() });
        }
        let mut r: &[u8] = buf;
        let ssrc: u32 = octets::get_u32(&mut r);
        let name: u32 = octets::get_u32(&mut r);
        if name != RIST_APP_NAME {
            return Ok(RistApp::Unknown { subtype, data: octets::to_vec(buf) });
        }
        match subtype {
            RIST_APP_RANGE_NACK => {
                let mut entries: Vec<(u16, u16)> = Vec::with_capacity(r.len() / 4);
                let ghost all = common::pairs_at(buf@, 8, ((buf@.len() - 8) / 4) as nat);
                while r.len() >= 4
                    invariant
                        buf@.len() >= 8,
                        8 + entries@.len() * 4 <= buf@.len(),
                        r@ == buf@.skip((8 + entries@.len() * 4) as int),
                        all == common::pairs_at(buf@, 8, ((buf@.len() - 8) / 4) as nat),
                        entries@ == all.take(entries@.len() as int),
                    decreases r@.len(),
                {
                    let ghost done = entries@.len() as int;
                    let start: u16 = octets::get_u16(&mut r);
                    let extra: u16 = octets::get_u16(&mut r);
                    entries.push((start, extra));
                    proof {
                        assert(r@ =~= buf@.skip(8 + (done + 1) * 4));
                        assert(all[done] == (start, extra));
                        assert(entries@ =~= all.take(done + 1));
                    }
                }
                assert(entries@ =~= all);
                Ok(RistApp::RangeNack(RangeNack { media_ssrc: ssrc, entries }))
            },
            RTT_ECHO_REQUEST => {
                if r.len() < 8 {
                    return Err(RistError::PacketTooShort { expected: 16, actual: buf.len() });
                }
                let timestamp_msw: u32 = octets::get_u32(&mut r);
                let timestamp_lsw: u32 = octets::get_u32(&mut r);
                Ok(
                    RistApp::RttEchoRequest(
                        RttEchoRequest { ssrc, timestamp_msw, timestamp_lsw },
                    ),
                )
            },
            RTT_ECHO_RESPONSE => {
                if r.len() < 12 {
                    return Err(RistError::PacketTooShort { expected: 20, actual: buf.len() });
                }
                let timestamp_msw: u32 = octets::get_u32(&mut r);
                let timestamp_lsw: u32 = octets::get_u32(&mut r);
                let processing_delay_us: u32 = octets::get_u32(&mut r);
                Ok(
                    RistApp::RttEchoResponse(
                        RttEchoResponse {
                            ssrc,
                            timestamp_msw,
                            timestamp_lsw,
                            processing_delay_us,
                        },
                    ),
                )
            },
            _ => Ok(RistApp::Unknown { subtype, data: octets::to_vec(buf) }),
        }
    }

    /// Serialize the full APP packet including common RTCP header.
    pub fn serialize(&self) -> (b: BytesMut)
        requires
            self@.wire().len() <= isize::MAX,
        ensures
            octets::written(b) == self@.wire(),
    {
        match self {
            RistApp::RttEchoRequest(req) => {
                let mut buf: BytesMut = octets::new_buffer(20);
                common::put_header(&mut buf, 0x80 + RTT_ECHO_REQUEST, RTCP_PT_APP, 4);
                let ghost header = octets::written(buf);
                octets::put_u32(&mut buf, req.ssrc);
                octets::put_u32(&mut buf, RIST_APP_NAME);
                octets::put_u32(&mut buf, req.timestamp_msw);
                octets::put_u32(&mut buf, req.timestamp_lsw);
                assert(octets::written(buf) =~= header + self@.body());
                buf
            },
            RistApp::RttEchoResponse(resp) => {
                let mut buf: BytesMut = octets::new_buffer(24);
                common::put_header(&mut buf, 0x80 + RTT_ECHO_RESPONSE, RTCP_PT_APP, 5);
                let ghost header = octets::written(buf);
                octets::put_u32(&mut buf, resp.ssrc);
                octets::put_u32(&mut buf, RIST_APP_NAME);
                octets::put_u32(&mut buf, resp.timestamp_msw);
                octets::put_u32(&mut buf, resp.timestamp_lsw);
                octets::put_u32(&mut buf, resp.processing_delay_us);
                assert(octets::written(buf) =~= header + self@.body());
                buf
            },
            RistApp::RangeNack(nack) => {
                proof {
                    common::lemma_pairs_len(nack.entries@);
                }
                let total: usize = 12 + 4 * nack.entries.len();
                let length_words: usize = total / 4 - 1;
                let mut buf: BytesMut = octets::new_buffer(total);
                common::put_header(
                    &mut buf,
                    0x80 + RIST_APP_RANGE_NACK,
                    RTCP_PT_APP,
                    octets::low_word(length_words),
                );
                let ghost header = octets::written(buf);
                octets::put_u32(&mut buf, nack.media_ssrc);
                octets::put_u32(&mut buf, RIST_APP_NAME);
                let ghost head = octets::written(buf);
                let ghost pairs = nack.entries@;
                let mut i: usize = 0;
                assert(head =~= head + common::pairs_wire(pairs.take(0)));
                while i < nack.entries.len()
                    invariant
                        i <= pairs.len(),
                        pairs == nack.entries@,
                        12 + pairs.len() * 4 <= isize::MAX,
                        octets::written(buf) == head + common::pairs_wire(pairs.take(i as int)),
                        octets::written(buf).len() == 12 + i * 4,
                    decreases pairs.len() - i,
                {
                    let (start, extra): (u16, u16) = nack.entries[i];
                    octets::put_u16(&mut buf, start);
                    octets::put_u16(&mut buf, extra);
                    proof {
                        common::lemma_pairs_push(head, pairs.take(i as int), (start, extra));
                        assert(pairs.take(i as int).push((start, extra)) =~= pairs.take(i + 1));
                    }
                    i = i + 1;
                }
                assert(pairs.take(i as int) =~= pairs);
                assert(octets::written(buf) =~= header + self@.body());
                buf
            },
            RistApp::Unknown { subtype, data } => {
                let total: usize = 4 + data.len();
                let length_words: usize = (total / 4).saturating_sub(1);
                let mut buf: BytesMut = octets::new_buffer(total);
                let subtype: u8 = *subtype;
                assert(0x80u8 | (subtype & 0x1F) == 0x80 + subtype % 32) by (bit_vector);
                common::put_header(
                    &mut buf,
                    0x80 | (subtype & 0x1F),
                    RTCP_PT_APP,
                    octets::low_word(length_words),
                );
                let ghost header = octets::written(buf);
                octets::put_slice(&mut buf, data.as_slice());
                assert(octets::written(buf) =~= header + self@.body());
                buf
            },
        }
    }
}

/// A serialized APP packet, of any length, reads back as it was.
pub proof fn law_app_reads_back(app: RistAppView)
    requires
        app.is_itself(),
    ensures
        RistAppView::parsed(app.body(), app.subtype()) == Ok::<RistAppView, RistErrorView>(app),
        app.wire() == app.wire().take(4) + app.body(),
        app.wire().len() == 4 + app.body().len(),
        !(app is Unknown) ==> app.body().len() % 4 == 0,
{
    let s = app.body();
    assert(app.wire() =~= app.wire().take(4) + app.body());
    match app {
        RistAppView::RttEchoRequest(req) => {
            octets::law_be32_reads_back(s, 0, req.ssrc);
            octets::law_be32_reads_back(s, 4, 0x5249_5354);
            octets::law_be32_reads_back(s, 8, req.timestamp_msw);
            octets::law_be32_reads_back(s, 12, req.timestamp_lsw);
        },
        RistAppView::RttEchoResponse(resp) => {
            octets::law_be32_reads_back(s, 0, resp.ssrc);
            octets::law_be32_reads_back(s, 4, 0x5249_5354);
            octets::law_be32_reads_back(s, 8, resp.timestamp_msw);
            octets::law_be32_reads_back(s, 12, resp.timestamp_lsw);
            octets::law_be32_reads_back(s, 16, resp.processing_delay_us);
        },
        RistAppView::RangeNack(nack) => {
            let head = octets::be32(nack.media_ssrc) + octets::be32(0x5249_5354);
            common::law_pairs_read_back(head, nack.entries);
            octets::law_be32_reads_back(s, 0, nack.media_ssrc);
            octets::law_be32_reads_back(s, 4, 0x5249_5354);
        },
        RistAppView::Unknown { .. } => {},
    }
}

} // verus!
