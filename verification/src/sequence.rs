//! Sequence numbers and timestamps, which wrap around at 2^32.
use vstd::prelude::*;

verus! {

/// How many numbers there are before they start again at zero.
pub open spec fn circle() -> int {
    0x1_0000_0000
}

/// Half of the circle: what lies less than this ahead of a number comes after it.
pub open spec fn half_circle() -> int {
    0x8000_0000
}

/// How far one has to count up from `from` to reach `to`.
pub open spec fn distance(from: u32, to: u32) -> int {
    (to - from) % circle()
}

/// The number that is reached by counting `n` up from `from`.
pub open spec fn advanced(from: u32, n: int) -> u32 {
    ((from + n) % circle()) as u32
}

/// The signed number whose two's complement is `x`.
pub open spec fn signed(x: int) -> int {
    if x < half_circle() {
        x
    } else {
        x - circle()
    }
}

/// `a` comes before `b`: counting up from `b`, `a` lies on the far half of the circle.
pub open spec fn before(a: u32, b: u32) -> bool {
    distance(b, a) >= half_circle()
}

/// `a` comes after `b`: counting up from `b`, `a` is met on the near half of the circle.
pub open spec fn after(a: u32, b: u32) -> bool {
    0 < distance(b, a) < half_circle()
}

/// The cast to `i32` reads a number as its two's complement.
pub proof fn lemma_as_signed(x: u32)
    ensures
        x as i32 == signed(x as int),
{
    assert(x < 0x8000_0000u32 ==> x as i32 == x) by (bit_vector);
    assert(x >= 0x8000_0000u32 ==> x as i32 == x - 0x1_0000_0000) by (bit_vector);
}

/// Counts `n` up from `from`.
pub(crate) fn advance(from: u32, n: u32) -> (r: u32)
    ensures
        r == advanced(from, n as int),
{
    from.wrapping_add(n)
}

/// Calculate time difference handling wrapping.
pub fn time_diff(later: u32, earlier: u32) -> (r: i32)
    ensures
        r == signed(distance(earlier, later)),
{
    let d: u32 = later.wrapping_sub(earlier);
    proof {
        lemma_as_signed(d);
    }
    d as i32
}

/// Check if a sequence number is before another (handling wrapping).
pub fn seq_before(seq1: u32, seq2: u32) -> (r: bool)
    ensures
        r == before(seq1, seq2),
{
    time_diff(seq1, seq2) < 0
}

/// Check if a sequence number is after another (handling wrapping).
pub fn seq_after(seq1: u32, seq2: u32) -> (r: bool)
    ensures
        r == after(seq1, seq2),
{
    time_diff(seq1, seq2) > 0
}

/// Of two different numbers that do not lie opposite each other, exactly one comes before
/// the other, and then the other comes after it.
pub proof fn law_order_is_total(a: u32, b: u32)
    requires
        a != b,
        distance(a, b) != half_circle(),
    ensures
        before(a, b) != before(b, a),
        before(a, b) == after(b, a),
{
}

/// Counting up from a number and then asking for the distance gives back the count.
pub proof fn law_distance_of_advanced(from: u32, n: int)
    requires
        0 <= n < circle(),
    ensures
        distance(from, advanced(from, n)) == n,
{
}

/// Counting up by the distance between two numbers leads from the one to the other.
pub proof fn law_advanced_by_distance(from: u32, to: u32)
    ensures
        advanced(from, distance(from, to)) == to,
{
}

/// Times that lie less than half the circle apart differ by what lies between them, whichever
/// comes first and wherever the count starts anew.
pub proof fn law_differences(from: u32, n: int)
    requires
        -0x8000_0000 < n < 0x8000_0000,
    ensures
        ({
            let to = ((from + n) % 0x1_0000_0000) as u32;
            &&& signed(distance(from, to)) == n
            &&& before(from, to) <==> n > 0
            &&& after(from, to) <==> n < 0
        }),
{
    lemma_wraps_once(from, n);
}

/// A number that is counted up or down from has wrapped around once at most.
proof fn lemma_wraps_once(from: u32, n: int)
    requires
        -0x8000_0000 < n < 0x8000_0000,
    ensures
        ({
            let to = (from + n) % 0x1_0000_0000;
            to == from + n || to == from + n - 0x1_0000_0000 || to == from + n + 0x1_0000_0000
        }),
{
}

} // verus!
