//! Edge weights as IEEE-754 binary64 bit patterns.
//!
//! A weight is the `u64` that holds the sign bit, the eleven exponent bits and
//! the fifty-two fraction bits of a double. Everything the graph algorithms ask
//! of a weight (is it an edge, is it smaller in magnitude than a threshold) is a
//! question about the magnitude bits, which order non-negative doubles exactly
//! as they order unsigned integers.

use vstd::prelude::*;

verus! {

/// The sign bit.
pub const SIGN_MASK: u64 = 0x8000_0000_0000_0000;

/// All bits but the sign.
pub const MAGNITUDE_MASK: u64 = 0x7fff_ffff_ffff_ffff;

/// The pattern of positive infinity; every larger magnitude is a NaN.
pub const INFINITY_BITS: u64 = 0x7ff0_0000_0000_0000;

/// The pattern of positive zero.
pub const ZERO_BITS: u64 = 0;

/// The pattern of `|w|`.
pub open spec fn magnitude(bits: u64) -> u64 {
    bits & MAGNITUDE_MASK
}

/// The sign bit of `w` is set.
pub open spec fn is_negative(bits: u64) -> bool {
    bits & SIGN_MASK != 0
}

/// `w` is a NaN.
pub open spec fn is_nan(bits: u64) -> bool {
    magnitude(bits) > INFINITY_BITS
}

/// `w` is positive or negative zero.
pub open spec fn is_zero(bits: u64) -> bool {
    magnitude(bits) == 0
}

/// `w` is neither infinite nor a NaN.
pub open spec fn is_finite(bits: u64) -> bool {
    magnitude(bits) < INFINITY_BITS
}

/// `|w| > 0` as doubles compare: the weight stands for an edge. False of both
/// zeros and of every NaN.
pub open spec fn is_present(bits: u64) -> bool {
    !is_zero(bits) && !is_nan(bits)
}

/// `|w| < t` as doubles compare: false where either is a NaN and where `t` is
/// negative or a zero; else the magnitudes are compared.
pub open spec fn magnitude_below(bits: u64, threshold: u64) -> bool {
    &&& !is_nan(bits)
    &&& !is_nan(threshold)
    &&& !is_negative(threshold)
    &&& magnitude(bits) < magnitude(threshold)
}

/// The weight with what is not finite replaced by positive zero.
pub open spec fn normalized(bits: u64) -> u64 {
    if is_finite(bits) {
        bits
    } else {
        ZERO_BITS
    }
}

/// The pattern of `|w|`.
pub fn weight_magnitude(bits: u64) -> (m: u64)
    ensures
        m == magnitude(bits),
{
    bits & MAGNITUDE_MASK
}

/// Whether `w` is a zero.
pub fn weight_is_zero(bits: u64) -> (r: bool)
    ensures
        r == is_zero(bits),
{
    weight_magnitude(bits) == 0
}

/// Whether `|w| > 0`.
pub fn weight_is_present(bits: u64) -> (r: bool)
    ensures
        r == is_present(bits),
{
    let m: u64 = weight_magnitude(bits);
    0 < m && m <= INFINITY_BITS
}

/// Whether `|w| < t`.
pub fn weight_magnitude_below(bits: u64, threshold: u64) -> (r: bool)
    ensures
        r == magnitude_below(bits, threshold),
{
    proof {
        assert(threshold & 0x8000_0000_0000_0000 == 0 ==> threshold & 0x7fff_ffff_ffff_ffff
            == threshold) by (bit_vector);
        assert(threshold & 0x8000_0000_0000_0000 != 0 ==> threshold > 0x7ff0_0000_0000_0000)
            by (bit_vector);
    }
    threshold <= INFINITY_BITS && weight_magnitude(bits) < threshold
}

/// The weight with what is not finite replaced by positive zero.
pub fn normalize_weight(bits: u64) -> (w: u64)
    ensures
        w == normalized(bits),
{
    if weight_magnitude(bits) < INFINITY_BITS {
        bits
    } else {
        ZERO_BITS
    }
}

} // verus!
