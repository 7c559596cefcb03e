//! Arithmetic on 16-bit serial numbers, which wrap from 65535 to 0.

use vstd::prelude::*;

verus! {

/// The sequence number `n` places after `s`, before it for a negative `n`.
pub open spec fn plus(s: u16, n: int) -> u16 {
    ((s + n) % 65_536) as u16
}

/// How many steps forward lead from `from` to `to`.
pub open spec fn ahead(from: u16, to: u16) -> int {
    (to - from) % 65_536
}

/// The signed distance from `from` to `to`: the shorter way round, and
/// backwards where both ways are equally long.
pub open spec fn diff(from: u16, to: u16) -> int {
    if ahead(from, to) < 32_768 {
        ahead(from, to)
    } else {
        ahead(from, to) - 65_536
    }
}

/// The signed distance from `from` to `to`.
pub fn signed_distance(from: u16, to: u16) -> (d: i32)
    ensures
        d == diff(from, to),
        -32_768 <= d <= 32_767,
{
    let ahead: u16 = to.wrapping_sub(from);
    if ahead < 32_768 {
        ahead as i32
    } else {
        ahead as i32 - 65_536
    }
}

/// Stepping forward and measuring the distance undo one another.
pub proof fn law_steps_and_distance(s: u16, t: u16, n: int)
    requires
        -32_768 <= n < 32_768,
    ensures
        diff(s, plus(s, n)) == n,
        plus(s, diff(s, t)) == t,
        0 <= n ==> ahead(s, plus(s, n)) == n,
        plus(s, ahead(s, t)) == t,
{
}

/// The distance of two numbers counted from a common base is the difference
/// of the counts.
pub proof fn law_distance_is_difference(base: u16, a: int, b: int)
    requires
        -32_768 <= b - a < 32_768,
    ensures
        diff(plus(base, a), plus(base, b)) == b - a,
        a <= b ==> ahead(plus(base, a), plus(base, b)) == b - a,
{
}

/// Of two different sequence numbers exactly one comes before the other,
/// except where they lie half the space apart: then neither does.
pub proof fn law_order_is_antisymmetric(s: u16, t: u16)
    requires
        s != t,
        ahead(s, t) != 32_768,
    ensures
        diff(s, t) == -diff(t, s),
        (diff(s, t) > 0) != (diff(t, s) > 0),
{
}

/// The order does not depend on where in the space the numbers lie: shifting
/// both by the same amount keeps their distance, across the wrap as elsewhere.
pub proof fn law_distance_is_shift_invariant(s: u16, t: u16, n: int)
    ensures
        diff(plus(s, n), plus(t, n)) == diff(s, t),
{
}

/// Stepping is addition modulo 65536, and nothing else.
pub proof fn law_steps_are_modular(s: u16, n: int)
    ensures
        (s + n - plus(s, n)) % 65_536 == 0,
        plus(s, 1) == if s == 65_535 {
            0int
        } else {
            s + 1
        },
{
}

/// The steps forward are the one count below 65536 that leads there, and the
/// signed distance the one from -32768 to 32767.
pub proof fn law_distance_leads_there(from: u16, to: u16)
    ensures
        0 <= ahead(from, to) < 65_536,
        (from + ahead(from, to)) % 65_536 == to,
        -32_768 <= diff(from, to) <= 32_767,
        (from + diff(from, to)) % 65_536 == to,
{
}

/// How far `seq` lies ahead of `origin`, the shorter way round; negative where
/// it lies behind.
pub open spec fn place(origin: u16, seq: u16) -> int {
    (seq - origin + 32_768) % 65_536 - 32_768
}

/// A place leads to its number.
pub proof fn lemma_place_leads(origin: u16, s: u16)
    ensures
        -32_768 <= place(origin, s) < 32_768,
        (origin + place(origin, s)) % 65_536 == s,
{
}

/// A number has one place.
pub proof fn lemma_place_is(origin: u16, s: u16, p: int)
    requires
        -32_768 <= p < 32_768,
        (origin + p) % 65_536 == s,
    ensures
        place(origin, s) == p,
        diff(origin, s) == p,
{
}

pub proof fn lemma_mod_steps(x: int, s: u16, d: int)
    requires
        x % 65_536 == s,
    ensures
        (s + d) % 65_536 == (x + d) % 65_536,
{
}

/// Numbers within a quarter of the space of `origin` are as far apart as their
/// places.
pub proof fn lemma_near_distance(origin: u16, s: u16, t: u16)
    requires
        -16_384 <= place(origin, s) < 16_384,
        -16_384 <= place(origin, t) < 16_384,
    ensures
        diff(s, t) == place(origin, t) - place(origin, s),
        place(origin, s) <= place(origin, t) ==> ahead(s, t) == place(origin, t) - place(origin, s),
        place(origin, s) > place(origin, t) ==> ahead(s, t) > 32_768,
        place(origin, s) == place(origin, t) ==> s == t,
{
    let p = place(origin, s);
    let q = place(origin, t);
    lemma_place_leads(origin, s);
    lemma_place_leads(origin, t);
    lemma_mod_steps(origin + p, s, q - p);
    lemma_place_is(s, t, q - p);
}

} // verus!
