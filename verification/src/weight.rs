//! Integer weights for callers that rank their elements by an IEEE 754
//! double.
//!
//! The heaps of this crate order their elements by a signed 64-bit integer.
//! A double that is not a NaN is turned into such a weight through its bit
//! pattern: the pattern without its sign bit already orders the doubles of
//! one sign by magnitude, so the weight is that magnitude for a double
//! without the sign bit and its negation for one with it. Both zeros get the
//! weight 0, and two doubles compare as their weights do. A NaN has no place
//! in that order and gets no weight.

use vstd::prelude::*;

verus! {

/// The sign bit of a double's bit pattern.
pub const SIGN_BIT: u64 = 0x8000_0000_0000_0000;

/// The bit pattern of positive infinity, the largest magnitude that is not a
/// NaN.
pub const INFINITY_BITS: u64 = 0x7ff0_0000_0000_0000;

/// The bit pattern without its sign bit.
pub open spec fn magnitude(bits: u64) -> int {
    if bits >= SIGN_BIT {
        bits - SIGN_BIT
    } else {
        bits as int
    }
}

/// Whether the bit pattern is that of a NaN: all exponent bits set and a
/// fraction that is not zero.
pub open spec fn is_nan_bits(bits: u64) -> bool {
    magnitude(bits) > INFINITY_BITS
}

/// The weight of the double with the given bit pattern.
pub open spec fn weight_of_bits(bits: u64) -> int {
    if bits >= SIGN_BIT {
        -magnitude(bits)
    } else {
        magnitude(bits)
    }
}

/// The bit pattern of the double with the given weight; the weight 0 gives
/// positive zero.
pub open spec fn bits_of_weight(weight: int) -> int {
    if weight >= 0 {
        weight
    } else {
        SIGN_BIT - weight
    }
}

/// The weight of the double whose bit pattern is `bits`, or `None` for the
/// bit pattern of a NaN.
pub fn weight_from_bits(bits: u64) -> (weight: Option<i64>)
    ensures
        is_nan_bits(bits) ==> weight is None,
        !is_nan_bits(bits) ==> weight == Some(weight_of_bits(bits) as i64),
        weight matches Some(w) ==> w == weight_of_bits(bits) && -INFINITY_BITS <= w
            <= INFINITY_BITS,
{
    let negative = bits >= SIGN_BIT;
    let magnitude = if negative {
        bits - SIGN_BIT
    } else {
        bits
    };
    if magnitude > INFINITY_BITS {
        None
    } else if negative {
        Some(-(magnitude as i64))
    } else {
        Some(magnitude as i64)
    }
}

/// The bit pattern of the double whose weight is `weight`, or `None` for an
/// integer that is the weight of no double.
pub fn weight_to_bits(weight: i64) -> (bits: Option<u64>)
    ensures
        -INFINITY_BITS <= weight <= INFINITY_BITS ==> bits == Some(
            bits_of_weight(weight as int) as u64,
        ),
        !(-INFINITY_BITS <= weight <= INFINITY_BITS) ==> bits is None,
        bits matches Some(b) ==> b == bits_of_weight(weight as int) && !is_nan_bits(b),
{
    if weight >= 0 {
        if weight as u64 > INFINITY_BITS {
            None
        } else {
            Some(weight as u64)
        }
    } else if weight < -(INFINITY_BITS as i64) {
        None
    } else {
        Some(SIGN_BIT + ((-weight) as u64))
    }
}

/// Turning a bit pattern that is no NaN into its weight and back gives the
/// same bit pattern, except that negative zero comes back as positive zero.
pub proof fn lemma_weight_round_trip(bits: u64)
    requires
        !is_nan_bits(bits),
    ensures
        bits_of_weight(weight_of_bits(bits)) == if bits == SIGN_BIT {
            0
        } else {
            bits as int
        },
{
}

/// Turning a weight of some double into its bit pattern and back gives the
/// same weight.
pub proof fn lemma_bits_round_trip(weight: i64)
    requires
        -INFINITY_BITS <= weight <= INFINITY_BITS,
    ensures
        !is_nan_bits(bits_of_weight(weight as int) as u64),
        weight_of_bits(bits_of_weight(weight as int) as u64) == weight,
{
}

/// Among doubles of one sign the weight grows with the magnitude for those
/// without the sign bit and falls with it for those with it, and no weight
/// of a double with the sign bit exceeds one of a double without it.
pub proof fn lemma_weight_order(a: u64, b: u64)
    requires
        !is_nan_bits(a),
        !is_nan_bits(b),
    ensures
        a < SIGN_BIT && b < SIGN_BIT ==> (weight_of_bits(a) <= weight_of_bits(b) <==> a <= b),
        a >= SIGN_BIT && b >= SIGN_BIT ==> (weight_of_bits(a) <= weight_of_bits(b) <==> a >= b),
        a >= SIGN_BIT && b < SIGN_BIT ==> weight_of_bits(a) <= weight_of_bits(b),
{
}

} // verus!
