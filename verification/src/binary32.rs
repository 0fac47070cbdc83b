//! Order on IEEE-754 binary32 values held by their bit patterns.
//!
//! A logit or a score is carried as the `u32` that `f32::to_bits` gives. The
//! only thing ever read from such a value is how it compares with another one,
//! and that is a matter of integers: the magnitude bits of two numbers of the
//! same sign compare like the numbers themselves.

use vstd::prelude::*;

verus! {

/// Bit pattern of negative infinity, the least value of the order.
pub const NEG_INFINITY: u32 = 0xFF80_0000;

/// Bit pattern of positive infinity.
pub const INFINITY: u32 = 0x7F80_0000;

/// Lowest bit pattern with the sign bit set (negative zero).
pub const SIGN_BIT: u32 = 0x8000_0000;

/// The pattern without its sign bit.
pub open spec fn magnitude(bits: u32) -> int {
    if bits >= SIGN_BIT {
        bits - SIGN_BIT
    } else {
        bits as int
    }
}

/// Not a number: all exponent bits set and a nonzero fraction.
pub open spec fn is_nan(bits: u32) -> bool {
    magnitude(bits) > INFINITY
}

/// Place of a number on the line of integers. For two patterns that are
/// numbers, the first is the smaller value exactly when its place is the
/// smaller one; both zeros share place 0.
pub open spec fn place(bits: u32) -> int {
    if bits >= SIGN_BIT {
        -magnitude(bits)
    } else {
        magnitude(bits)
    }
}

/// `a < b` as the values compare: false as soon as one of them is not a number.
pub open spec fn less(a: u32, b: u32) -> bool {
    !is_nan(a) && !is_nan(b) && place(a) < place(b)
}

/// `a > b` as the values compare.
pub open spec fn greater(a: u32, b: u32) -> bool {
    less(b, a)
}

/// Rank used for sorting: the place of a number, and one step below negative
/// infinity for whatever is not a number, so that ranks are totally ordered.
pub open spec fn rank(bits: u32) -> int {
    if is_nan(bits) {
        -(INFINITY as int) - 1
    } else {
        place(bits)
    }
}

/// Tells whether the pattern is not a number.
pub fn classify_nan(bits: u32) -> (r: bool)
    ensures
        r == is_nan(bits),
{
    let mag: u32 = if bits >= SIGN_BIT {
        bits - SIGN_BIT
    } else {
        bits
    };
    mag > INFINITY
}

/// The place of the pattern as a machine integer.
pub fn place_of(bits: u32) -> (r: i64)
    ensures
        r == place(bits),
{
    if bits >= SIGN_BIT {
        let mag: u32 = bits - SIGN_BIT;
        0i64 - (mag as i64)
    } else {
        bits as i64
    }
}

/// The sorting rank of the pattern as a machine integer.
pub fn rank_of(bits: u32) -> (r: i64)
    ensures
        r == rank(bits),
{
    if classify_nan(bits) {
        0i64 - (INFINITY as i64) - 1
    } else {
        place_of(bits)
    }
}

/// Compares two patterns as the values they stand for.
pub fn less_than(a: u32, b: u32) -> (r: bool)
    ensures
        r == less(a, b),
{
    !classify_nan(a) && !classify_nan(b) && place_of(a) < place_of(b)
}

/// Compares two patterns as the values they stand for.
pub fn greater_than(a: u32, b: u32) -> (r: bool)
    ensures
        r == greater(a, b),
{
    less_than(b, a)
}

/// Nothing lies below negative infinity.
pub proof fn lemma_nothing_below_neg_infinity(bits: u32)
    ensures
        !less(bits, NEG_INFINITY),
{
}

/// Among numbers a higher rank is a greater value, and two numbers of one
/// rank are equal as values.
pub proof fn lemma_rank_orders_numbers(a: u32, b: u32)
    requires
        !is_nan(a),
        !is_nan(b),
    ensures
        less(a, b) <==> rank(a) < rank(b),
        greater(a, b) <==> rank(a) > rank(b),
{
}

} // verus!
