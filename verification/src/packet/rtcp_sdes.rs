//! RTCP Source Description (SDES) packet (RFC 3550 Section 6.5).
//!
//! RIST SDES packets contain exactly one chunk with one CNAME item.
//! See TR-06-1:2020 Section 5.2.5.

use bytes::BytesMut;
use vstd::prelude::*;
use vstd::string::*;
use vstd::utf8::*;

use crate::error::{RistError, RistErrorView};
use crate::octets;
use crate::packet::common;
use crate::text;

verus! {

broadcast use {octets::lemma_be16_len, octets::lemma_be32_len};

/// RTCP packet type for SDES.
pub const RTCP_PT_SDES: u8 = 202;

/// SDES item type for CNAME.
const SDES_CNAME: u8 = 1;

/// RIST SDES packet with a single CNAME item.
#[derive(Debug, PartialEq, Eq)]
pub struct Sdes {
    /// SSRC of the source.
    pub ssrc: u32,
    /// Canonical name, typically the host's IP address.
    pub cname: String,
}

/// An [`Sdes`] with its name as a sequence of characters.
#[verifier::ext_equal]
pub struct SdesView {
    pub ssrc: u32,
    pub cname: Seq<char>,
}

impl View for Sdes {
    type V = SdesView;

    open spec fn view(&self) -> SdesView {
        SdesView { ssrc: self.ssrc, cname: self.cname@ }
    }
}

impl Clone for Sdes {
    fn clone(&self) -> (s: Self)
        ensures
            s@ == self@,
    {
        Sdes { ssrc: self.ssrc, cname: self.cname.clone() }
    }
}

impl SdesView {
    /// Whether the name fits its one-byte length.
    pub open spec fn fits(self) -> bool {
        encode_utf8(self.cname).len() <= 255
    }

    /// How many zero bytes end a chunk whose name takes `name_len` bytes: at
    /// least one, and up to the next 32-bit boundary.
    pub open spec fn padding(name_len: int) -> int {
        4 - (6 + name_len) % 4
    }

    /// The bytes after the common header: the chunk.
    pub open spec fn body(self) -> Seq<u8> {
        let name = encode_utf8(self.cname);
        octets::be32(self.ssrc) + seq![1u8, (name.len() % 256) as u8] + name + Seq::new(
            Self::padding(name.len() as int) as nat,
            |i: int| 0u8,
        )
    }

    /// The packet with its common header. The length stands there modulo 65536.
    pub open spec fn wire(self) -> Seq<u8> {
        common::header_wire(
            0x81,
            RTCP_PT_SDES,
            (self.body().len() / 4 % 65_536) as u16,
        ) + self.body()
    }

    /// The description in `s`, which starts past the common header, or why
    /// there is none.
    pub open spec fn parsed(s: Seq<u8>) -> Result<SdesView, RistErrorView> {
        if s.len() < 6 {
            Err(RistErrorView::PacketTooShort { expected: 6, actual: s.len() as int })
        } else if s[4] != 1 {
            Err(
                RistErrorView::Other(
                    "expected SDES CNAME (type 1), got type "@ + text::decimal(s[4] as nat),
                ),
            )
        } else if s.len() < 6 + s[5] {
            Err(RistErrorView::PacketTooShort { expected: 6 + s[5], actual: s.len() as int })
        } else {
            Ok(
                SdesView {
                    ssrc: octets::u32_at(s, 0),
                    cname: text::decoded(s.subrange(6, 6 + s[5])),
                },
            )
        }
    }
}

impl Sdes {
    /// Parse from buffer (after common RTCP header has been read).
    pub fn parse(buf: &[u8]) -> (r: Result<Self, RistError>)
        ensures
            match r {
                Ok(sdes) => SdesView::parsed(buf@) == Ok::<SdesView, RistErrorView>(sdes@),
                Err(e) => SdesView::parsed(buf@) == Err::<SdesView, RistErrorView>(e@),
            },
    {
        if buf.len() < 6 {
            return Err(RistError::PacketTooShort { expected: 6, actual: buf.len() });
        }
        let mut r: &[u8] = buf;
        let ssrc: u32 = octets::get_u32(&mut r);
        let item_type: u8 = buf[4];
        if item_type != SDES_CNAME {
            return Err(
                RistError::Other(
                    text::with_number("expected SDES CNAME (type 1), got type ", item_type),
                ),
            );
        }
        let name_len: usize = buf[5] as usize;
        if buf.len() < 6 + name_len {
            return Err(RistError::PacketTooShort { expected: 6 + name_len, actual: buf.len() });
        }
        let name: &[u8] = &buf[6..6 + name_len];
        let cname = text::text_of(name);
        Ok(Sdes { ssrc, cname })
    }

    /// Serialize the full SDES packet including the common RTCP header.
    /// Padded to a 32-bit boundary per TR-06-1:2020 Section 5.2.5.
    pub fn serialize(&self) -> (b: BytesMut)
        requires
            self@.wire().len() <= isize::MAX,
        ensures
            octets::written(b) == self@.wire(),
    {
        let cname_bytes: &[u8] = self.cname.as_str().as_bytes();
        let name_len: usize = cname_bytes.len();
        let chunk_len: usize = 4 + 2 + name_len;
        let padding_needed: usize = 4 - chunk_len % 4;
        let total_chunk_len: usize = chunk_len + padding_needed;
        let length_words: usize = (4 + total_chunk_len) / 4 - 1;

        let mut buf: BytesMut = octets::new_buffer(4 + total_chunk_len);
        common::put_header(&mut buf, 0x81, RTCP_PT_SDES, octets::low_word(length_words));
        let ghost header = octets::written(buf);
        octets::put_u32(&mut buf, self.ssrc);
        octets::put_u8(&mut buf, SDES_CNAME);
        octets::put_u8(&mut buf, octets::low_byte(name_len));
        octets::put_slice(&mut buf, cname_bytes);
        let ghost named = octets::written(buf);
        let mut padded: usize = 0;
        assert(named =~= named + Seq::new(0, |i: int| 0u8));
        while padded < padding_needed
            invariant
                padded <= padding_needed <= 4,
                named.len() + padding_needed <= isize::MAX,
                octets::written(buf) == named + Seq::new(padded as nat, |i: int| 0u8),
            decreases padding_needed - padded,
        {
            octets::put_u8(&mut buf, 0);
            padded = padded + 1;
            assert(octets::written(buf) =~= named + Seq::new(padded as nat, |i: int| 0u8));
        }
        assert(octets::written(buf) =~= header + self@.body());
        buf
    }
}

/// A serialized source description reads back as it was.
pub proof fn law_sdes_reads_back(sdes: SdesView)
    requires
        sdes.fits(),
    ensures
        SdesView::parsed(sdes.body()) == Ok::<SdesView, RistErrorView>(sdes),
{
    let s = sdes.body();
    let name = encode_utf8(sdes.cname);
    octets::law_be32_reads_back(s, 0, sdes.ssrc);
    assert(s.subrange(6, 6 + name.len() as int) =~= name);
    encode_utf8_decode_utf8(sdes.cname);
    encode_utf8_valid_utf8(sdes.cname);
}

/// Every source description ends on a 32-bit boundary, after at least one
/// zero byte.
pub proof fn law_sdes_is_aligned(sdes: SdesView)
    ensures
        sdes.wire().len() % 4 == 0,
        sdes.wire().last() == 0,
        sdes.wire() == sdes.wire().take(4) + sdes.body(),
        sdes.wire().len() == 4 + sdes.body().len(),
{
    assert(sdes.wire() =~= sdes.wire().take(4) + sdes.body());
}

} // verus!
