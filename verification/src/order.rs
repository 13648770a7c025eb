//! Scores as IEEE 754 binary64 bit patterns, and the order among them.
//!
//! Verified code never does arithmetic on a score: it only carries the 64
//! bits and asks which of two scores is the larger. That question has an
//! integer answer. A binary64 pattern is a sign bit above 63 magnitude bits,
//! and among the numbers (the infinities included) the larger magnitude is
//! the larger absolute value. So the order of the numbers is the order of the
//! signed magnitudes, with both zeros at 0. A NaN is no number; it is placed
//! below every number, whatever its sign and payload.

use vstd::prelude::*;
use std::cmp::Ordering;

verus! {

/// The sign bit of a binary64 pattern.
pub const SIGN_MASK: u64 = 0x8000_0000_0000_0000;

/// The exponent and fraction bits of a binary64 pattern.
pub const MAGNITUDE_MASK: u64 = 0x7fff_ffff_ffff_ffff;

/// The magnitude of the infinities: every exponent bit set, no fraction bit.
pub const INFINITY_BITS: u64 = 0x7ff0_0000_0000_0000;

/// The key of every NaN, below the key of negative infinity.
pub const NAN_KEY: i64 = i64::MIN;

/// The exponent and fraction bits of `bits`.
pub open spec fn spec_magnitude(bits: u64) -> u64 {
    bits & MAGNITUDE_MASK
}

/// Whether `bits` is a NaN: a magnitude above that of the infinities.
pub open spec fn spec_is_nan(bits: u64) -> bool {
    spec_magnitude(bits) > INFINITY_BITS
}

/// Whether the sign bit of `bits` is set.
pub open spec fn spec_is_negative(bits: u64) -> bool {
    bits & SIGN_MASK != 0
}

/// The integer that orders `bits` among all patterns: the signed magnitude
/// for a number, `NAN_KEY` for a NaN.
pub open spec fn spec_order_key(bits: u64) -> int {
    if spec_is_nan(bits) {
        NAN_KEY as int
    } else if spec_is_negative(bits) {
        -(spec_magnitude(bits) as int)
    } else {
        spec_magnitude(bits) as int
    }
}

/// Every key fits in an `i64`, and only a NaN has the lowest one.
pub proof fn lemma_order_key_range(bits: u64)
    ensures
        i64::MIN <= spec_order_key(bits) <= INFINITY_BITS,
        spec_is_nan(bits) <==> spec_order_key(bits) == NAN_KEY,
        !spec_is_nan(bits) ==> -(INFINITY_BITS as int) <= spec_order_key(bits),
{
}

/// Whether `bits` is a NaN.
pub fn is_nan(bits: u64) -> (nan: bool)
    ensures
        nan == spec_is_nan(bits),
{
    bits & MAGNITUDE_MASK > INFINITY_BITS
}

/// The integer that orders `bits` among all patterns.
pub fn order_key(bits: u64) -> (key: i64)
    ensures
        key == spec_order_key(bits),
{
    let magnitude: u64 = bits & MAGNITUDE_MASK;
    if magnitude > INFINITY_BITS {
        NAN_KEY
    } else if bits & SIGN_MASK != 0 {
        -(magnitude as i64)
    } else {
        magnitude as i64
    }
}

/// Compares two scores for a descending sort: `Less` where `a` is the larger
/// and so comes first.
pub fn rev_cmp_float(a: u64, b: u64) -> (ordering: Ordering)
    ensures
        ordering == Ordering::Less <==> spec_order_key(a) > spec_order_key(b),
        ordering == Ordering::Equal <==> spec_order_key(a) == spec_order_key(b),
        ordering == Ordering::Greater <==> spec_order_key(a) < spec_order_key(b),
{
    let left: i64 = order_key(a);
    let right: i64 = order_key(b);
    if left > right {
        Ordering::Less
    } else if left == right {
        Ordering::Equal
    } else {
        Ordering::Greater
    }
}

} // verus!
