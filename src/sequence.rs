//! Arithmetic on 16-bit sequence numbers that wrap around.
//!
//! Two sequence numbers have no absolute order; only the forward distance
//! from one to the other, taken modulo 65536, means anything.
use vstd::prelude::*;

verus! {

/// Forward distances below this are "recently after"; from it on, the other
/// number is taken to lie behind.
pub const HALF_RANGE: u16 = 32000;

/// How many sequence numbers behind an anchor an ack bitfield can describe.
pub const WINDOW: u16 = 32;

/// How far `to` lies ahead of `from`, counting modulo 65536.
pub open spec fn distance(from: u16, to: u16) -> int {
    (to as int - from as int) % 0x1_0000
}

/// The sequence number after `s`, wrapping from 65535 to 0.
pub open spec fn next_seq(s: u16) -> u16 {
    ((s + 1) % 0x1_0000) as u16
}

/// Computes `distance(from, to)` with wrapping subtraction.
pub fn wrapping_distance(from: u16, to: u16) -> (d: u16)
    ensures
        d == distance(from, to),
{
    to.wrapping_sub(from)
}

/// The distance from `a` to `b` and back sums to 0 or to the full range.
pub proof fn lemma_distance_back_and_forth(a: u16, b: u16)
    ensures
        0 <= distance(a, b) < 0x1_0000,
        distance(a, b) == 0 <==> a == b,
        a != b ==> distance(a, b) + distance(b, a) == 0x1_0000,
{
}

/// Going from `a` to `b` and on to `c` covers the distance from `a` to `c`,
/// modulo 65536.
pub proof fn lemma_distance_add(a: u16, b: u16, c: u16)
    ensures
        distance(a, c) == (distance(a, b) + distance(b, c)) % 0x1_0000,
{
}

} // verus!
