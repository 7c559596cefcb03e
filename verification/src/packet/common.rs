//! The four bytes that every RTCP packet starts with, and the lists of
//! 16-bit pairs that NACKs end with.

use bytes::BytesMut;
use vstd::prelude::*;

use crate::octets;

verus! {

broadcast use {octets::lemma_be16_len, octets::lemma_be32_len};

/// A common header: version, padding and count in `first`, the packet type,
/// and the length in 32-bit words minus one.
pub open spec fn header_wire(first: u8, packet_type: u8, length: u16) -> Seq<u8> {
    seq![first, packet_type] + octets::be16(length)
}

/// Appends a common header.
pub(crate) fn put_header(buf: &mut BytesMut, first: u8, packet_type: u8, length: u16)
    requires
        octets::written(*old(buf)).len() + 4 <= isize::MAX,
    ensures
        octets::written(*final(buf)) == octets::written(*old(buf)) + header_wire(
            first,
            packet_type,
            length,
        ),
        octets::written(*final(buf)).len() == octets::written(*old(buf)).len() + 4,
{
    octets::put_u8(buf, first);
    octets::put_u8(buf, packet_type);
    octets::put_u16(buf, length);
    assert(octets::written(*buf) =~= octets::written(*old(buf)) + header_wire(
        first,
        packet_type,
        length,
    ));
}

/// A list of pairs, each as two big-endian integers.
pub open spec fn pairs_wire(pairs: Seq<(u16, u16)>) -> Seq<u8>
    decreases pairs.len(),
{
    if pairs.len() == 0 {
        Seq::empty()
    } else {
        pairs_wire(pairs.drop_last()) + octets::be16(pairs.last().0) + octets::be16(pairs.last().1)
    }
}

/// The pair at offset `at` of `s`.
pub open spec fn pair_at(s: Seq<u8>, at: int) -> (u16, u16) {
    (octets::u16_at(s, at), octets::u16_at(s, at + 2))
}

/// The `n` pairs from offset `at` of `s` on.
pub open spec fn pairs_at(s: Seq<u8>, at: int, n: nat) -> Seq<(u16, u16)> {
    Seq::new(n, |i: int| pair_at(s, at + i * 4))
}

/// Appending the words of a pair appends the pair to the list.
pub proof fn lemma_pairs_push(head: Seq<u8>, pairs: Seq<(u16, u16)>, pair: (u16, u16))
    ensures
        head + pairs_wire(pairs) + octets::be16(pair.0) + octets::be16(pair.1) == head
            + pairs_wire(pairs.push(pair)),
{
    assert(pairs.push(pair).drop_last() =~= pairs);
    assert(head + pairs_wire(pairs) + octets::be16(pair.0) + octets::be16(pair.1) =~= head
        + pairs_wire(pairs.push(pair)));
}

/// How long a list of pairs is on the wire.
pub proof fn lemma_pairs_len(pairs: Seq<(u16, u16)>)
    ensures
        pairs_wire(pairs).len() == pairs.len() * 4,
    decreases pairs.len(),
{
    if pairs.len() > 0 {
        lemma_pairs_len(pairs.drop_last());
    }
}

pub proof fn lemma_pair_wire(pairs: Seq<(u16, u16)>, i: int)
    requires
        0 <= i < pairs.len(),
    ensures
        pairs_wire(pairs).len() == pairs.len() * 4,
        pairs_wire(pairs).subrange(i * 4, i * 4 + 2) == octets::be16(pairs[i].0),
        pairs_wire(pairs).subrange(i * 4 + 2, i * 4 + 4) == octets::be16(pairs[i].1),
    decreases pairs.len(),
{
    let shorter = pairs.drop_last();
    let s = pairs_wire(pairs);
    lemma_pairs_len(pairs);
    lemma_pairs_len(shorter);
    if i < shorter.len() {
        lemma_pair_wire(shorter, i);
        assert(s.subrange(i * 4, i * 4 + 2) =~= pairs_wire(shorter).subrange(i * 4, i * 4 + 2));
        assert(s.subrange(i * 4 + 2, i * 4 + 4) =~= pairs_wire(shorter).subrange(
            i * 4 + 2,
            i * 4 + 4,
        ));
    } else {
        assert(s.subrange(i * 4, i * 4 + 2) =~= octets::be16(pairs[i].0));
        assert(s.subrange(i * 4 + 2, i * 4 + 4) =~= octets::be16(pairs[i].1));
    }
}

/// A serialized list of pairs reads back as it was.
pub proof fn law_pairs_read_back(head: Seq<u8>, pairs: Seq<(u16, u16)>)
    ensures
        pairs_at(head + pairs_wire(pairs), head.len() as int, pairs.len()) == pairs,
        (head + pairs_wire(pairs)).len() == head.len() + pairs.len() * 4,
{
    let s = head + pairs_wire(pairs);
    let at = head.len() as int;
    lemma_pairs_len(pairs);
    assert forall|i: int| 0 <= i < pairs.len() implies #[trigger] pair_at(s, at + i * 4)
        == pairs[i] by {
        lemma_pair_wire(pairs, i);
        assert(s.subrange(at + i * 4, at + i * 4 + 2) =~= pairs_wire(pairs).subrange(
            i * 4,
            i * 4 + 2,
        ));
        assert(s.subrange(at + i * 4 + 2, at + i * 4 + 4) =~= pairs_wire(pairs).subrange(
            i * 4 + 2,
            i * 4 + 4,
        ));
        octets::law_be16_reads_back(s, at + i * 4, pairs[i].0);
        octets::law_be16_reads_back(s, at + i * 4 + 2, pairs[i].1);
    }
    assert(pairs_at(s, at, pairs.len()) =~= pairs);
}

} // verus!
