//! Arithmetic on 16-bit counters that wrap around.

use vstd::prelude::*;

verus! {

/// A simulation step counter. It wraps around after 65535.
pub type Tick = u16;

/// How many steps forward lead from `from` to `to` around the 16-bit circle.
pub open spec fn steps_forward(from: u16, to: u16) -> int {
    (to as int - from as int) % 0x1_0000
}

/// `a` comes after `b`: it lies less than half the circle ahead of it.
pub open spec fn later_than(a: u16, b: u16) -> bool {
    0 < steps_forward(b, a) < 0x8000
}

/// `a` comes after `b`, or is the same counter value.
pub open spec fn at_or_later_than(a: u16, b: u16) -> bool {
    steps_forward(b, a) < 0x8000
}

/// The signed shortest way from `a` to `b`: the forward step count where that
/// is under half the circle, else the backward one as a negative number.
pub open spec fn signed_distance(a: u16, b: u16) -> int {
    if steps_forward(a, b) < 0x8000 {
        steps_forward(a, b)
    } else {
        steps_forward(a, b) - 0x1_0000
    }
}

/// Going from `a` to `b` and on to `a` is a whole turn, unless they are equal.
pub proof fn lemma_steps_round_trip(a: u16, b: u16)
    ensures
        a == b ==> steps_forward(a, b) == 0,
        a != b ==> steps_forward(a, b) + steps_forward(b, a) == 0x1_0000,
        0 <= steps_forward(a, b) < 0x1_0000,
{
}

/// Step counts add up around the circle.
pub proof fn lemma_steps_chain(a: u16, b: u16, c: u16)
    ensures
        steps_forward(a, c) == (steps_forward(a, b) + steps_forward(b, c)) % 0x1_0000,
{
}

/// No two counters come after each other, and none comes after itself.
pub proof fn lemma_later_than_one_way(a: u16, b: u16)
    ensures
        later_than(a, b) ==> !later_than(b, a) && a != b,
{
    lemma_steps_round_trip(a, b);
}

/// Of two counters that lie less than half the circle ahead of a third,
/// the later one is the one that lies further ahead.
pub proof fn lemma_order_by_offset(base: Tick, a: Tick, b: Tick)
    requires
        steps_forward(base, a) < 0x8000,
        steps_forward(base, b) < 0x8000,
    ensures
        later_than(b, a) <==> steps_forward(base, a) < steps_forward(base, b),
        a == b <==> steps_forward(base, a) == steps_forward(base, b),
{
    lemma_steps_chain(base, a, b);
    lemma_steps_chain(base, b, a);
    lemma_steps_round_trip(a, b);
}

/// Whether `a` is strictly newer than `b` under wrap-around.
pub fn sequence_greater_than(a: u16, b: u16) -> (r: bool)
    ensures
        r == later_than(a, b),
{
    let ahead: u16 = a.wrapping_sub(b);
    0 < ahead && ahead < 0x8000
}

/// Whether `a` is strictly older than `b` under wrap-around.
pub fn sequence_less_than(a: u16, b: u16) -> (r: bool)
    ensures
        r == later_than(b, a),
{
    sequence_greater_than(b, a)
}

/// The signed shortest distance from `a` to `b`.
pub fn wrapping_diff(a: u16, b: u16) -> (r: i16)
    ensures
        r == signed_distance(a, b),
{
    let ahead: u16 = b.wrapping_sub(a);
    if ahead < 0x8000 {
        ahead as i16
    } else {
        let back: u16 = a.wrapping_sub(b);
        assert(back <= 0x8000);
        if back == 0x8000 {
            i16::MIN
        } else {
            -(back as i16)
        }
    }
}

} // verus!
