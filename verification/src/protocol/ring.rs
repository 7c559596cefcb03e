//! Rings of slots indexed by sequence number.

use vstd::arithmetic::div_mod::*;
use vstd::arithmetic::power2::*;
use vstd::prelude::*;

use crate::serial;

verus! {

/// Whether `n` is a power of two.
pub open spec fn is_power_of_two(n: int) -> bool {
    exists|k: nat| n == #[trigger] pow2(k)
}

/// Whether sequence numbers keep their slot in a ring of `capacity` slots when
/// they wrap: one of the ring and the sequence space divides the other.
pub open spec fn ring_fits(capacity: int) -> bool {
    &&& capacity > 0
    &&& 65_536int % capacity == 0 || capacity % 65_536 == 0
}

/// The slot of sequence number `seq` in a ring of `capacity` slots.
pub open spec fn slot_of(seq: u16, capacity: int) -> int {
    seq as int % capacity
}

/// The smallest power of two that is at least `n`.
pub fn next_power_of_two(n: usize) -> (p: usize)
    requires
        n <= usize::MAX / 2 + 1,
    ensures
        is_power_of_two(p as int),
        p >= n,
        p >= 1,
        p == 1 || p / 2 < n,
        ring_fits(p as int),
{
    let mut p: usize = 1;
    let ghost mut k: nat = 0;
    proof {
        lemma2_to64();
    }
    while p < n
        invariant
            n <= usize::MAX / 2 + 1,
            p == pow2(k),
            p >= 1,
            p == 1 || p / 2 < n,
        decreases usize::MAX - p,
    {
        proof {
            lemma_pow2_unfold(k + 1);
            k = k + 1;
        }
        p = p * 2;
    }
    proof {
        lemma_power_of_two_fits(k);
    }
    p
}

/// There is one power of two between a number and its double.
pub proof fn law_rounding_is_unique(n: int, p: int, q: int)
    requires
        is_power_of_two(p),
        is_power_of_two(q),
        n <= p,
        n <= q,
        p / 2 < n,
        q / 2 < n,
    ensures
        p == q,
{
    let j = choose|k: nat| p == #[trigger] pow2(k);
    let k = choose|k: nat| q == #[trigger] pow2(k);
    lemma2_to64();
    lemma_pow2_pos(j);
    lemma_pow2_pos(k);
    if j < k {
        lemma_pow2_unfold(k);
        if j < (k - 1) as nat {
            lemma_pow2_strictly_increases(j, (k - 1) as nat);
        }
    } else if k < j {
        lemma_pow2_unfold(j);
        if k < (j - 1) as nat {
            lemma_pow2_strictly_increases(k, (j - 1) as nat);
        }
    }
}

/// A ring with a power of two of slots fits the sequence space.
proof fn lemma_power_of_two_fits(k: nat)
    ensures
        ring_fits(pow2(k) as int),
{
    lemma2_to64();
    lemma_pow2_pos(k);
    if k <= 16 {
        let rest = (16 - k) as nat;
        lemma_pow2_adds(k, rest);
        assert(k + rest == 16);
        lemma_mod_multiples_vanish(pow2(rest) as int, 0, pow2(k) as int);
        assert(65_536int == pow2(k) * pow2(rest) + 0);
    } else {
        let rest = (k - 16) as nat;
        lemma_pow2_adds(16, rest);
        assert(16 + rest == k);
        lemma_mod_multiples_vanish(pow2(rest) as int, 0, 65_536);
        assert(pow2(k) as int == 65_536 * pow2(rest) + 0);
    }
}

/// Every sequence number has a slot.
pub proof fn lemma_slot_in_ring(seq: u16, capacity: int)
    requires
        ring_fits(capacity),
    ensures
        0 <= slot_of(seq, capacity) < capacity,
{
    lemma_mod_bound(seq as int, capacity);
}

/// Two sequence numbers that share a slot lie a full ring apart: of the
/// numbers from `base` on, the first `capacity` have slots of their own.
pub proof fn lemma_slots_are_distinct(base: u16, a: u16, b: u16, capacity: int)
    requires
        ring_fits(capacity),
        serial::ahead(base, a) < capacity,
        serial::ahead(base, b) < capacity,
        slot_of(a, capacity) == slot_of(b, capacity),
    ensures
        a == b,
{
    let i = serial::ahead(base, a);
    let j = serial::ahead(base, b);
    if 65_536int % capacity == 0 {
        let m = 65_536int / capacity;
        lemma_fundamental_div_mod(65_536, capacity);
        assert(65_536int == capacity * m);
        let x = if base + i < 65_536 { 0int } else { 1int };
        let y = if base + j < 65_536 { 0int } else { 1int };
        assert(a == base + i - 65_536 * x);
        assert(b == base + j - 65_536 * y);
        assert(65_536 * x == capacity * (m * x)) by (nonlinear_arith)
            requires
                65_536int == capacity * m,
        ;
        assert(65_536 * y == capacity * (m * y)) by (nonlinear_arith)
            requires
                65_536int == capacity * m,
        ;
        lemma_mod_multiples_vanish(m * x, a as int, capacity);
        lemma_mod_multiples_vanish(m * y, b as int, capacity);
        assert((base + i) % capacity == (base + j) % capacity);
        lemma_mod_equivalence(base + i, base + j, capacity);
        assert((base + i) - (base + j) == i - j);
        assert((i - j) % capacity == 0);
        if i > j {
            lemma_small_mod((i - j) as nat, capacity as nat);
        } else if j > i {
            lemma_mod_equivalence(j, i, capacity);
            lemma_mod_equivalence(i, j, capacity);
            lemma_small_mod((j - i) as nat, capacity as nat);
        }
    } else {
        lemma_fundamental_div_mod(capacity, 65_536);
        assert(capacity >= 65_536) by {
            if capacity < 65_536 {
                lemma_small_mod(capacity as nat, 65_536);
            }
        }
        lemma_small_mod(a as nat, capacity as nat);
        lemma_small_mod(b as nat, capacity as nat);
    }
}

} // verus!
