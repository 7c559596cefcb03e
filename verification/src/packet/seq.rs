//! 16-bit RTP sequence numbers with wraparound arithmetic.

use vstd::prelude::*;

use crate::serial;

verus! {

/// A 16-bit RTP sequence number.
///
/// Two numbers are compared by their signed distance in the 16-bit space, so
/// that the order survives wraparound: 65535 comes before 0.
#[derive(Debug, Clone, Copy, Eq, Hash)]
pub struct SeqNo(pub u16);

impl SeqNo {
    /// The signed distance from `self` to `other`. Positive means that `other`
    /// is ahead of `self`.
    pub fn diff(self, other: SeqNo) -> (d: i32)
        ensures
            d == serial::diff(self.0, other.0),
    {
        serial::signed_distance(self.0, other.0)
    }

    /// Whether `self` comes before `other` in sequence space.
    pub fn precedes(self, other: SeqNo) -> (b: bool)
        ensures
            b == (serial::diff(self.0, other.0) > 0),
    {
        self.diff(other) > 0
    }

    /// The following sequence number.
    pub fn next(self) -> (s: SeqNo)
        ensures
            s.0 == serial::plus(self.0, 1),
    {
        SeqNo(self.0.wrapping_add(1))
    }

    /// The sequence number `n` places on.
    pub fn add(self, n: u16) -> (s: SeqNo)
        ensures
            s.0 == serial::plus(self.0, n as int),
    {
        SeqNo(self.0.wrapping_add(n))
    }
}

impl PartialEq for SeqNo {
    fn eq(&self, other: &SeqNo) -> (b: bool) {
        self.0 == other.0
    }
}

impl vstd::std_specs::cmp::PartialEqSpecImpl for SeqNo {
    open spec fn obeys_eq_spec() -> bool {
        true
    }

    open spec fn eq_spec(&self, other: &SeqNo) -> bool {
        self.0 == other.0
    }
}

impl PartialOrd for SeqNo {
    fn partial_cmp(&self, other: &SeqNo) -> (o: Option<core::cmp::Ordering>) {
        let d: i32 = self.diff(*other);
        if d > 0 {
            Some(core::cmp::Ordering::Less)
        } else if d == 0 {
            Some(core::cmp::Ordering::Equal)
        } else {
            Some(core::cmp::Ordering::Greater)
        }
    }
}

impl vstd::std_specs::cmp::PartialOrdSpecImpl for SeqNo {
    open spec fn obeys_partial_cmp_spec() -> bool {
        true
    }

    open spec fn partial_cmp_spec(&self, other: &SeqNo) -> Option<core::cmp::Ordering> {
        if serial::diff(self.0, other.0) > 0 {
            Some(core::cmp::Ordering::Less)
        } else if serial::diff(self.0, other.0) == 0 {
            Some(core::cmp::Ordering::Equal)
        } else {
            Some(core::cmp::Ordering::Greater)
        }
    }
}

impl From<u16> for SeqNo {
    fn from(v: u16) -> (s: SeqNo) {
        SeqNo(v)
    }
}

impl vstd::std_specs::convert::FromSpecImpl<u16> for SeqNo {
    open spec fn obeys_from_spec() -> bool {
        true
    }

    open spec fn from_spec(v: u16) -> SeqNo {
        SeqNo(v)
    }
}

impl From<SeqNo> for u16 {
    fn from(s: SeqNo) -> (v: u16) {
        s.0
    }
}

impl vstd::std_specs::convert::FromSpecImpl<SeqNo> for u16 {
    open spec fn obeys_from_spec() -> bool {
        true
    }

    open spec fn from_spec(s: SeqNo) -> u16 {
        s.0
    }
}

} // verus!
