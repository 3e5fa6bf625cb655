//! Bit-level model of IEEE 754 values.
//!
//! The library stores every time, frequency and velocity as the raw bit
//! pattern of a double-precision value (`u64`), and every audio sample as
//! the raw bit pattern of a single-precision value (`u32`).  Classification
//! (NaN, finite, normal) and ordering of double-precision values are pure
//! functions of the bit pattern, so they are implemented here as verified
//! integer logic: a sign bit, an 11-bit exponent and a 52-bit fraction.
//!
//! Ordering: for two non-NaN patterns, the IEEE order of the values equals
//! the order of the signed keys `(-1)^sign * magnitude`, where the magnitude
//! is the pattern without its sign bit.  Both zero patterns have magnitude 0,
//! so the two zeroes compare equal, as IEEE requires.  Any comparison
//! involving a NaN pattern is false.

use vstd::prelude::*;

verus! {

/// Mask of the sign bit of a double-precision pattern.
pub const F64_SIGN_MASK: u64 = 0x8000_0000_0000_0000;
/// Mask of the exponent field of a double-precision pattern.
pub const F64_EXP_MASK: u64 = 0x7FF0_0000_0000_0000;
/// Mask of the fraction field of a double-precision pattern.
pub const F64_FRAC_MASK: u64 = 0x000F_FFFF_FFFF_FFFF;
/// Mask of everything but the sign bit: the magnitude of the pattern.
pub const F64_MAG_MASK: u64 = 0x7FFF_FFFF_FFFF_FFFF;

/// The double-precision pattern of the value zero.
pub const F64_ZERO_BITS: u64 = 0;
/// The double-precision pattern of the value one.
pub const F64_ONE_BITS: u64 = 0x3FF0_0000_0000_0000;
/// The double-precision pattern of the value two.
pub const F64_TWO_BITS: u64 = 0x4000_0000_0000_0000;

/// The pattern is a NaN: exponent all ones and a non-zero fraction.
pub open spec fn f64_is_nan(b: u64) -> bool {
    b & F64_EXP_MASK == F64_EXP_MASK && b & F64_FRAC_MASK != 0
}

/// The pattern is a finite value: exponent not all ones.
pub open spec fn f64_is_finite(b: u64) -> bool {
    b & F64_EXP_MASK != F64_EXP_MASK
}

/// The sign bit of the pattern is clear: the value is positive, zero, or a
/// NaN with a clear sign bit.
pub open spec fn f64_is_sign_pos(b: u64) -> bool {
    b & F64_SIGN_MASK == 0
}

/// The pattern is a normal value strictly greater than zero: sign clear,
/// exponent neither zero (zero / subnormal) nor all ones (infinity / NaN).
pub open spec fn f64_is_valid_time_frequency(b: u64) -> bool {
    &&& b & F64_SIGN_MASK == 0
    &&& b & F64_EXP_MASK != 0
    &&& b & F64_EXP_MASK != F64_EXP_MASK
}

/// Signed key of a non-NaN pattern; two patterns compare in IEEE order
/// exactly when their keys compare in integer order.
pub open spec fn f64_key(b: u64) -> int {
    if b & F64_SIGN_MASK == F64_SIGN_MASK {
        -((b & F64_MAG_MASK) as int)
    } else {
        (b & F64_MAG_MASK) as int
    }
}

/// IEEE `<` on two double-precision patterns: false on NaN, else key order.
pub open spec fn f64_lt(a: u64, b: u64) -> bool {
    !f64_is_nan(a) && !f64_is_nan(b) && f64_key(a) < f64_key(b)
}

/// IEEE `<=` on two double-precision patterns: false on NaN, else key order.
pub open spec fn f64_le(a: u64, b: u64) -> bool {
    !f64_is_nan(a) && !f64_is_nan(b) && f64_key(a) <= f64_key(b)
}

/// IEEE `>` on two double-precision patterns.
pub open spec fn f64_gt(a: u64, b: u64) -> bool {
    f64_lt(b, a)
}

/// Decides whether a pattern holds a usable time or frequency: a normal
/// value strictly greater than zero, as the rendering pipeline demands of
/// durations and of looked-up frequencies.
pub fn is_valid_time_frequency(b: u64) -> (r: bool)
    ensures
        r == f64_is_valid_time_frequency(b),
{
    b & F64_SIGN_MASK == 0 && b & F64_EXP_MASK != 0 && b & F64_EXP_MASK != F64_EXP_MASK
}

/// Decides `f64_is_nan` on a pattern.
pub fn is_nan_bits(b: u64) -> (r: bool)
    ensures
        r == f64_is_nan(b),
{
    b & F64_EXP_MASK == F64_EXP_MASK && b & F64_FRAC_MASK != 0
}

/// Decides IEEE `<` on two patterns.
pub fn lt_bits(a: u64, b: u64) -> (r: bool)
    ensures
        r == f64_lt(a, b),
{
    if is_nan_bits(a) || is_nan_bits(b) {
        false
    } else {
        let a_neg: bool = a & F64_SIGN_MASK == F64_SIGN_MASK;
        let b_neg: bool = b & F64_SIGN_MASK == F64_SIGN_MASK;
        if a_neg && b_neg {
            b & F64_MAG_MASK < a & F64_MAG_MASK
        } else if a_neg {
            !(a & F64_MAG_MASK == 0 && b & F64_MAG_MASK == 0)
        } else if b_neg {
            false
        } else {
            a & F64_MAG_MASK < b & F64_MAG_MASK
        }
    }
}

/// Decides IEEE `<=` on two patterns.
pub fn le_bits(a: u64, b: u64) -> (r: bool)
    ensures
        r == f64_le(a, b),
{
    if is_nan_bits(a) || is_nan_bits(b) {
        false
    } else {
        let a_neg: bool = a & F64_SIGN_MASK == F64_SIGN_MASK;
        let b_neg: bool = b & F64_SIGN_MASK == F64_SIGN_MASK;
        if a_neg && b_neg {
            b & F64_MAG_MASK <= a & F64_MAG_MASK
        } else if a_neg {
            true
        } else if b_neg {
            a & F64_MAG_MASK == 0 && b & F64_MAG_MASK == 0
        } else {
            a & F64_MAG_MASK <= b & F64_MAG_MASK
        }
    }
}

/// Decides IEEE `>` on two patterns.
pub fn gt_bits(a: u64, b: u64) -> (r: bool)
    ensures
        r == f64_gt(a, b),
{
    lt_bits(b, a)
}

} // verus!
