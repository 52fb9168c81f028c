//! Weights and probabilities as bit patterns.
//!
//! Every weight and every acceptance probability in this crate is an IEEE 754
//! double-precision number, held as the `u64` that `to_bits` gives. Arithmetic
//! on them is the caller's business; here they are only classified and
//! compared, which integer code can do exactly.

use vstd::prelude::*;

verus! {

/// The sign bit of a double.
pub const SIGN_BIT: u64 = 0x8000_0000_0000_0000;

/// The bit pattern of positive infinity. Magnitudes above it are not numbers.
pub const INFINITY: u64 = 0x7FF0_0000_0000_0000;

/// The bit pattern of `1.0`.
pub const ONE: u64 = 0x3FF0_0000_0000_0000;

/// The pattern without its sign bit.
pub open spec fn magnitude(bits: u64) -> int {
    if bits >= SIGN_BIT {
        bits - SIGN_BIT
    } else {
        bits as int
    }
}

/// Whether the pattern is a NaN.
pub open spec fn is_nan(bits: u64) -> bool {
    magnitude(bits) > INFINITY
}

/// Whether the pattern is a finite number.
pub open spec fn is_finite(bits: u64) -> bool {
    magnitude(bits) < INFINITY
}

/// An integer that orders the numbers as their values do. Both zeros map to
/// `0`; among patterns that are not NaN, `a < b` as doubles exactly when
/// `numeric_rank(a) < numeric_rank(b)`.
pub open spec fn numeric_rank(bits: u64) -> int {
    if bits >= SIGN_BIT {
        -magnitude(bits)
    } else {
        magnitude(bits)
    }
}

/// An integer that orders all patterns, NaNs included, as the IEEE 754
/// `totalOrder` predicate does: negative NaNs, negative infinity, negative
/// numbers, `-0`, `+0`, positive numbers, positive infinity, positive NaNs.
/// Distinct patterns have distinct ranks.
pub open spec fn total_rank(bits: u64) -> int {
    if bits >= SIGN_BIT {
        -1 - magnitude(bits)
    } else {
        magnitude(bits)
    }
}

/// `a < b` as doubles: false when either is a NaN, and `-0` is not below `+0`.
pub open spec fn less_than(a: u64, b: u64) -> bool {
    !is_nan(a) && !is_nan(b) && numeric_rank(a) < numeric_rank(b)
}

/// A usable weight: finite and not below zero.
pub open spec fn is_weight(bits: u64) -> bool {
    is_finite(bits) && numeric_rank(bits) >= 0
}

/// A weight of zero, of either sign.
pub open spec fn is_zero(bits: u64) -> bool {
    magnitude(bits) == 0
}

/// A probability: a number in `[0, 1]`.
pub open spec fn is_probability(bits: u64) -> bool {
    !is_nan(bits) && 0 <= numeric_rank(bits) <= ONE
}

/// The key by which weights are sorted.
pub fn total_key(bits: u64) -> (key: i64)
    ensures
        key == total_rank(bits),
{
    if bits >= SIGN_BIT {
        -1 - ((bits - SIGN_BIT) as i64)
    } else {
        bits as i64
    }
}

/// The value-ordering integer of a pattern that is not a NaN.
fn numeric_key(bits: u64) -> (key: i64)
    ensures
        key == numeric_rank(bits),
{
    if bits >= SIGN_BIT {
        -((bits - SIGN_BIT) as i64)
    } else {
        bits as i64
    }
}

/// Tests whether the pattern is a NaN.
pub fn nan(bits: u64) -> (r: bool)
    ensures
        r == is_nan(bits),
{
    if bits >= SIGN_BIT {
        bits - SIGN_BIT > INFINITY
    } else {
        bits > INFINITY
    }
}

/// Compares two doubles as `<` does.
pub fn below(a: u64, b: u64) -> (r: bool)
    ensures
        r == less_than(a, b),
{
    !nan(a) && !nan(b) && numeric_key(a) < numeric_key(b)
}

/// Tests whether the pattern can serve as a weight.
pub fn usable_weight(bits: u64) -> (r: bool)
    ensures
        r == is_weight(bits),
{
    bits < INFINITY || bits == SIGN_BIT
}

/// Tests whether the pattern is a zero.
pub fn zero(bits: u64) -> (r: bool)
    ensures
        r == is_zero(bits),
{
    bits == 0 || bits == SIGN_BIT
}

/// Tests whether the pattern is a number in `[0, 1]`.
pub fn probability(bits: u64) -> (r: bool)
    ensures
        r == is_probability(bits),
{
    bits <= ONE || bits == SIGN_BIT
}

/// Distinct patterns have distinct places in the total order, so sorting by
/// `total_rank` leaves no two different weights tied.
pub proof fn lemma_total_rank_injective(a: u64, b: u64)
    requires
        total_rank(a) == total_rank(b),
    ensures
        a == b,
{
}

} // verus!
