//! Byte buffers of the `bytes` crate, and the big-endian integers in them.

use bytes::{Buf, BufMut, Bytes, BytesMut};
use vstd::prelude::*;

verus! {

/// `bytes::Bytes`: a cheaply cloneable, immutable run of bytes.
#[verifier::external_type_specification]
#[verifier::external_body]
pub struct ExBytes(bytes::Bytes);

/// `bytes::BytesMut`: a growable byte buffer.
#[verifier::external_type_specification]
#[verifier::external_body]
pub struct ExBytesMut(bytes::BytesMut);

/// The bytes that a `Bytes` holds.
pub uninterp spec fn content(b: Bytes) -> Seq<u8>;

/// The bytes written to a `BytesMut` so far.
pub uninterp spec fn written(b: BytesMut) -> Seq<u8>;

/// The two bytes of `n`, most significant first.
#[verifier::opaque]
pub open spec fn be16(n: u16) -> Seq<u8> {
    seq![(n / 256) as u8, (n % 256) as u8]
}

/// The four bytes of `n`, most significant first.
#[verifier::opaque]
pub open spec fn be32(n: u32) -> Seq<u8> {
    seq![
        (n / 0x100_0000) as u8,
        (n / 0x1_0000 % 256) as u8,
        (n / 256 % 256) as u8,
        (n % 256) as u8,
    ]
}

pub broadcast proof fn lemma_be16_len(n: u16)
    ensures
        #[trigger] be16(n).len() == 2,
{
    reveal(be16);
}

pub broadcast proof fn lemma_be32_len(n: u32)
    ensures
        #[trigger] be32(n).len() == 4,
{
    reveal(be32);
}

/// The integer whose big-endian bytes stand at offset `at` of `s`.
pub open spec fn u16_at(s: Seq<u8>, at: int) -> u16 {
    (s[at] * 256 + s[at + 1]) as u16
}

/// The integer whose big-endian bytes stand at offset `at` of `s`.
pub open spec fn u32_at(s: Seq<u8>, at: int) -> u32 {
    (s[at] * 0x100_0000 + s[at + 1] * 0x1_0000 + s[at + 2] * 256 + s[at + 3]) as u32
}

/// `n` modulo 256.
pub fn low_byte(n: usize) -> (b: u8)
    ensures
        b == n % 256,
{
    (n % 256) as u8
}

/// `n` modulo 65536.
pub fn low_word(n: usize) -> (w: u16)
    ensures
        w == n % 65_536,
{
    (n % 65_536) as u16
}

/// A copy of `s`.
pub fn to_vec(s: &[u8]) -> (v: Vec<u8>)
    ensures
        v@ == s@,
{
    let mut v: Vec<u8> = Vec::with_capacity(s.len());
    v.extend_from_slice(s);
    assert(v@ =~= s@);
    v
}

/// Where the two bytes of `n` stand, `n` is read.
pub proof fn law_be16_reads_back(s: Seq<u8>, at: int, n: u16)
    requires
        0 <= at,
        at + 2 <= s.len(),
        s.subrange(at, at + 2) =~= be16(n),
    ensures
        u16_at(s, at) == n,
{
    reveal(be16);
    assert(s[at] == s.subrange(at, at + 2)[0]);
    assert(s[at + 1] == s.subrange(at, at + 2)[1]);
}

/// Where the four bytes of `n` stand, `n` is read.
pub proof fn law_be32_reads_back(s: Seq<u8>, at: int, n: u32)
    requires
        0 <= at,
        at + 4 <= s.len(),
        s.subrange(at, at + 4) =~= be32(n),
    ensures
        u32_at(s, at) == n,
{
    reveal(be32);
    assert(s[at] == s.subrange(at, at + 4)[0]);
    assert(s[at + 1] == s.subrange(at, at + 4)[1]);
    assert(s[at + 2] == s.subrange(at, at + 4)[2]);
    assert(s[at + 3] == s.subrange(at, at + 4)[3]);
}

/// The bytes of the integer read are the bytes it was read from.
pub proof fn law_be16_writes_back(s: Seq<u8>, at: int)
    requires
        0 <= at,
        at + 2 <= s.len(),
    ensures
        be16(u16_at(s, at)) == s.subrange(at, at + 2),
{
    reveal(be16);
    assert(be16(u16_at(s, at)) =~= s.subrange(at, at + 2));
}

/// The bytes of an even integer and of the next one differ in the last alone.
pub proof fn lemma_be32_of_even(n: u32)
    requires
        n % 2 == 0,
    ensures
        be32(n)[3] % 2 == 0,
        be32((n + 1) as u32) == be32(n).update(3, (be32(n)[3] + 1) as u8),
{
    reveal(be32);
    let m = (n + 1) as u32;
    let a = n as int / 0x100_0000;
    let b = n as int / 0x1_0000 % 256;
    let c = n as int / 256 % 256;
    let d = n as int % 256;
    lemma_digits_sum(n as int);
    lemma_four_digits(a, b, c, d + 1);
    assert(m == a * 0x100_0000 + b * 0x1_0000 + c * 256 + (d + 1));
    assert(be32(m) =~= be32(n).update(3, (be32(n)[3] + 1) as u8));
}

/// A number is the sum of its digits to the base 256.
proof fn lemma_digits_sum(n: int)
    requires
        0 <= n <= u32::MAX,
    ensures
        n == n / 0x100_0000 * 0x100_0000 + n / 0x1_0000 % 256 * 0x1_0000 + n / 256 % 256 * 256 + n
            % 256,
        0 <= n / 0x100_0000 < 256,
{
    let p = n / 256;
    let q = p / 256;
    assert(q == n / 0x1_0000);
    assert(q / 256 == n / 0x100_0000);
}

/// The digits of a number of four digits to the base 256.
proof fn lemma_four_digits(a: int, b: int, c: int, d: int)
    requires
        0 <= a < 256,
        0 <= b < 256,
        0 <= c < 256,
        0 <= d < 256,
    ensures
        ({
            let n = a * 0x100_0000 + b * 0x1_0000 + c * 256 + d;
            &&& 0 <= n <= u32::MAX
            &&& n / 0x100_0000 == a
            &&& n / 0x1_0000 % 256 == b
            &&& n / 256 % 256 == c
            &&& n % 256 == d
        }),
{
    let n = a * 0x100_0000 + b * 0x1_0000 + c * 256 + d;
    assert(n / 0x1_0000 == a * 256 + b);
    assert(n / 256 == a * 0x1_0000 + b * 256 + c);
}

/// The bytes of the integer read are the bytes it was read from.
pub proof fn law_be32_writes_back(s: Seq<u8>, at: int)
    requires
        0 <= at,
        at + 4 <= s.len(),
    ensures
        be32(u32_at(s, at)) == s.subrange(at, at + 4),
{
    reveal(be32);
    lemma_four_digits(s[at] as int, s[at + 1] as int, s[at + 2] as int, s[at + 3] as int);
    assert(be32(u32_at(s, at)) =~= s.subrange(at, at + 4));
}

/// `Buf::get_u8` for `&[u8]`: takes the first byte off the front of `r`.
#[verifier::external_body]
pub(crate) fn get_u8(r: &mut &[u8]) -> (n: u8)
    requires
        old(r)@.len() >= 1,
    ensures
        n == old(r)@[0],
        final(r)@ == old(r)@.skip(1),
{
    r.get_u8()
}

/// `Buf::get_u16` for `&[u8]`: takes a big-endian integer off the front of `r`.
#[verifier::external_body]
pub(crate) fn get_u16(r: &mut &[u8]) -> (n: u16)
    requires
        old(r)@.len() >= 2,
    ensures
        n == u16_at(old(r)@, 0),
        final(r)@ == old(r)@.skip(2),
{
    r.get_u16()
}

/// `Buf::get_u32` for `&[u8]`: takes a big-endian integer off the front of `r`.
#[verifier::external_body]
pub(crate) fn get_u32(r: &mut &[u8]) -> (n: u32)
    requires
        old(r)@.len() >= 4,
    ensures
        n == u32_at(old(r)@, 0),
        final(r)@ == old(r)@.skip(4),
{
    r.get_u32()
}

/// `BytesMut::with_capacity`: a buffer with nothing written to it.
#[verifier::external_body]
pub(crate) fn new_buffer(capacity: usize) -> (b: BytesMut)
    requires
        capacity <= isize::MAX,
    ensures
        written(b) == Seq::<u8>::empty(),
{
    BytesMut::with_capacity(capacity)
}

/// `BufMut::put_u8` for `BytesMut`: appends one byte.
#[verifier::external_body]
pub(crate) fn put_u8(b: &mut BytesMut, n: u8)
    requires
        written(*old(b)).len() + 1 <= isize::MAX,
    ensures
        written(*final(b)) == written(*old(b)).push(n),
{
    b.put_u8(n)
}

/// `BufMut::put_u16` for `BytesMut`: appends the integer in big-endian order.
#[verifier::external_body]
pub(crate) fn put_u16(b: &mut BytesMut, n: u16)
    requires
        written(*old(b)).len() + 2 <= isize::MAX,
    ensures
        written(*final(b)) == written(*old(b)) + be16(n),
{
    b.put_u16(n)
}

/// `BufMut::put_u32` for `BytesMut`: appends the integer in big-endian order.
#[verifier::external_body]
pub(crate) fn put_u32(b: &mut BytesMut, n: u32)
    requires
        written(*old(b)).len() + 4 <= isize::MAX,
    ensures
        written(*final(b)) == written(*old(b)) + be32(n),
{
    b.put_u32(n)
}

/// `BytesMut::extend_from_slice`: appends the bytes of `src`.
#[verifier::external_body]
pub(crate) fn put_slice(b: &mut BytesMut, src: &[u8])
    requires
        written(*old(b)).len() + src@.len() <= isize::MAX,
    ensures
        written(*final(b)) == written(*old(b)) + src@,
{
    b.extend_from_slice(src)
}

/// `BytesMut::freeze`: the same bytes, immutable.
#[verifier::external_body]
pub(crate) fn freeze(b: BytesMut) -> (r: Bytes)
    ensures
        content(r) == written(b),
{
    b.freeze()
}

/// `Bytes::copy_from_slice`: a copy of the bytes of `src`.
#[verifier::external_body]
pub(crate) fn copy_octets(src: &[u8]) -> (r: Bytes)
    ensures
        content(r) == src@,
{
    Bytes::copy_from_slice(src)
}

/// `<Bytes as Clone>::clone`: another handle on the same bytes.
pub assume_specification[ <bytes::Bytes as Clone>::clone ](b: &bytes::Bytes) -> (r: bytes::Bytes)
    ensures
        content(r) == content(*b),
;

/// `<Bytes as AsRef<[u8]>>::as_ref`: the bytes as a slice.
#[verifier::external_body]
pub(crate) fn octet_slice(b: &Bytes) -> (r: &[u8])
    ensures
        r@ == content(*b),
{
    b.as_ref()
}

/// `<BytesMut as AsRef<[u8]>>::as_ref`: the bytes written so far, as a slice.
#[verifier::external_body]
pub(crate) fn written_slice(b: &BytesMut) -> (r: &[u8])
    ensures
        r@ == written(*b),
{
    b.as_ref()
}

} // verus!
