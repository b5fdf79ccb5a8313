//! Arithmetic on 32-bit sequence numbers, which live on a circle of 2^32 points.

use vstd::prelude::*;
use vstd::arithmetic::div_mod::{lemma_add_mod_noop, lemma_mod_twice};

verus! {

/// Number of points on the sequence-number circle.
pub open spec fn space() -> int {
    0x1_0000_0000
}

/// Half of the circle: the largest distance over which order is still defined.
pub const HALF_SPACE: u32 = 0x8000_0000;

/// How many steps forward lead from `from` to `to` on the circle.
#[verifier::opaque]
pub open spec fn steps(from: u32, to: u32) -> int {
    (to - from) % space()
}

/// The sequence number `n` steps after `base`; before it for a negative `n`.
#[verifier::opaque]
pub open spec fn advance(base: u32, n: int) -> u32 {
    ((base + n) % space()) as u32
}

/// `lhs` comes strictly before `rhs`: `rhs` is ahead of it by fewer than half
/// the circle.
pub open spec fn seq_lt(lhs: u32, rhs: u32) -> bool {
    0 < steps(lhs, rhs) < HALF_SPACE
}

/// `lhs` comes before `rhs` or is `rhs`.
pub open spec fn seq_le(lhs: u32, rhs: u32) -> bool {
    lhs == rhs || seq_lt(lhs, rhs)
}

/// `x` lies in the open interval `(start, end)` of the circle.
pub open spec fn seq_between(start: u32, x: u32, end: u32) -> bool {
    seq_lt(start, x) && seq_lt(x, end)
}

/// `x` lies in the half-open interval `[start, end)` of the circle.
pub open spec fn seq_in_range(start: u32, x: u32, end: u32) -> bool {
    seq_le(start, x) && seq_lt(x, end)
}

/// The steps between two points: their difference, brought into the circle.
pub proof fn lemma_steps(from: u32, to: u32)
    ensures
        0 <= steps(from, to) < space(),
        to >= from ==> steps(from, to) == to - from,
        to < from ==> steps(from, to) == to - from + space(),
{
    reveal(steps);
}

/// What the machine's wrapping subtraction computes, as steps on the circle.
pub proof fn lemma_wrapping_sub_is_steps(a: u32, b: u32)
    ensures
        a.wrapping_sub(b) == steps(b, a),
        0 <= steps(b, a) < space(),
{
    reveal(steps);
}

/// What the machine's wrapping addition computes, as an advance on the circle.
pub proof fn lemma_wrapping_add_is_advance(a: u32, n: u32)
    ensures
        a.wrapping_add(n) == advance(a, n as int),
{
    reveal(advance);
}

/// One step back on the circle, as the machine takes it.
pub proof fn lemma_wrapping_sub_is_retreat(a: u32, n: u32)
    ensures
        a.wrapping_sub(n) == advance(a, -(n as int)),
{
    reveal(advance);
}

/// Walking from `a` to `b` and back closes the circle.
pub proof fn lemma_steps_opposite(a: u32, b: u32)
    ensures
        a == b ==> steps(a, b) == 0,
        a != b ==> steps(a, b) + steps(b, a) == space(),
{
    reveal(steps);
}

/// Two advances in a row are one advance by the sum.
pub proof fn lemma_advance_twice(base: u32, n: int, m: int)
    ensures
        advance(advance(base, n), m) == advance(base, n + m),
{
    reveal(advance);
    let s = space();
    assert(((base + n) % s + m) % s == (base + n + m) % s) by {
        lemma_add_mod_noop(base + n, m, s);
        lemma_mod_twice(base + n, s);
        lemma_add_mod_noop((base + n) % s, m, s);
    }
}

/// An advance counts its steps modulo the size of the circle.
pub proof fn lemma_advance_mod(base: u32, n: int)
    ensures
        advance(base, n % space()) == advance(base, n),
        0 <= n % space() < space(),
{
    reveal(advance);
    let s = space();
    lemma_add_mod_noop(base as int, n, s);
    lemma_add_mod_noop(base as int, n % s, s);
    lemma_mod_twice(n, s);
}

/// An advance by nothing stays in place.
pub proof fn lemma_advance_zero(base: u32)
    ensures
        advance(base, 0) == base,
{
    reveal(advance);
}

/// Advancing by the steps between two points leads from the one to the other.
pub proof fn lemma_advance_steps(from: u32, to: u32)
    ensures
        advance(from, steps(from, to)) == to,
{
    reveal(advance);
    reveal(steps);
}

/// The steps to a point that lies `n` ahead, for `n` within the circle.
pub proof fn lemma_steps_advance(base: u32, n: int)
    requires
        0 <= n < space(),
    ensures
        steps(base, advance(base, n)) == n,
{
    reveal(advance);
    reveal(steps);
}

/// Walking on from a point adds to the steps that led to it, as long as the
/// walk stays within one turn of the circle.
pub proof fn lemma_steps_add(base: u32, at: u32, n: int)
    requires
        0 <= steps(base, at) + n < space(),
    ensures
        steps(base, advance(at, n)) == steps(base, at) + n,
{
    reveal(advance);
    reveal(steps);
}

/// The steps from a point that lies between two others are what is left of
/// the way.
pub proof fn lemma_steps_split(from: u32, mid: u32, to: u32)
    requires
        steps(from, mid) <= steps(from, to),
    ensures
        steps(mid, to) == steps(from, to) - steps(from, mid),
{
    reveal(steps);
}

/// A point that lies fewer than half the circle ahead comes later, and no
/// other does.
pub proof fn lemma_seq_lt_advance(base: u32, n: int)
    requires
        0 <= n < space(),
    ensures
        seq_lt(base, advance(base, n)) <==> 0 < n < HALF_SPACE,
        seq_le(base, advance(base, n)) <==> n < HALF_SPACE,
{
    lemma_steps_advance(base, n);
    lemma_advance_zero(base);
    if advance(base, n) == base {
        lemma_steps_opposite(base, base);
    }
}

/// Strict wrapping order: true when `lhs` lies before `rhs`.
pub fn wrapping_lt(lhs: u32, rhs: u32) -> (r: bool)
    ensures
        r == seq_lt(lhs, rhs),
{
    proof {
        lemma_wrapping_sub_is_steps(lhs, rhs);
        lemma_steps_opposite(lhs, rhs);
        lemma_steps(lhs, rhs);
    }
    lhs.wrapping_sub(rhs) > HALF_SPACE
}

/// True when `x` lies strictly between `start` and `end` on the circle.
pub fn is_between_wrapped(start: u32, x: u32, end: u32) -> (r: bool)
    ensures
        r == seq_between(start, x, end),
{
    wrapping_lt(start, x) && wrapping_lt(x, end)
}

/// Non-strict wrapping order.
pub fn wrapping_le(lhs: u32, rhs: u32) -> (r: bool)
    ensures
        r == seq_le(lhs, rhs),
{
    lhs == rhs || wrapping_lt(lhs, rhs)
}

/// True when `x` lies in `[start, end)` on the circle.
pub fn is_in_wrapped_range(start: u32, x: u32, end: u32) -> (r: bool)
    ensures
        r == seq_in_range(start, x, end),
{
    wrapping_le(start, x) && wrapping_lt(x, end)
}

} // verus!
