//! Bit-level view of the IEEE 754 binary32 scalars that travel on the wire.
//!
//! Every coordinate, radius and scale in this crate is kept as the raw
//! 32-bit pattern of a binary32 value. Classification and ordering of such
//! patterns are pure integer operations, stated and proved here; arithmetic
//! on the values themselves is left to the unverified front end.

use vstd::prelude::*;

verus! {

/// Exponent field of a binary32 pattern.
pub open spec fn exp_bits(b: u32) -> u32 {
    (b >> 23) & 0xff
}

/// Fraction (mantissa) field of a binary32 pattern.
pub open spec fn frac_bits(b: u32) -> u32 {
    b & 0x7f_ffff
}

/// Sign bit of a binary32 pattern.
pub open spec fn sign_bit(b: u32) -> bool {
    (b >> 31) == 1
}

/// Magnitude: the pattern with the sign bit cleared.
pub open spec fn magnitude(b: u32) -> u32 {
    b & 0x7fff_ffff
}

/// The pattern encodes a NaN.
pub open spec fn is_nan_bits(b: u32) -> bool {
    exp_bits(b) == 0xff && frac_bits(b) != 0
}

/// The pattern encodes a finite value (not NaN, not an infinity).
pub open spec fn is_finite_bits(b: u32) -> bool {
    exp_bits(b) != 0xff
}

/// The pattern encodes a normal value: finite, not zero, not subnormal.
pub open spec fn is_normal_bits(b: u32) -> bool {
    exp_bits(b) != 0 && exp_bits(b) != 0xff
}

/// The pattern encodes a (positive or negative) zero.
pub open spec fn is_zero_bits(b: u32) -> bool {
    magnitude(b) == 0
}

/// Order key of a non-NaN pattern: binary32 values excluding NaN are totally
/// ordered, and that order is the integer order of `key_of`, with both zeros
/// mapping to the same key.
pub open spec fn key_of(b: u32) -> int {
    if sign_bit(b) {
        -(magnitude(b) as int)
    } else {
        magnitude(b) as int
    }
}

/// IEEE comparison `a < b` on patterns: false if either side is NaN.
pub open spec fn lt_bits(a: u32, b: u32) -> bool {
    !is_nan_bits(a) && !is_nan_bits(b) && key_of(a) < key_of(b)
}

/// IEEE comparison `a <= b` on patterns: false if either side is NaN.
pub open spec fn le_bits(a: u32, b: u32) -> bool {
    !is_nan_bits(a) && !is_nan_bits(b) && key_of(a) <= key_of(b)
}

/// IEEE equality on patterns: both zeros are equal; NaN equals nothing.
pub open spec fn eq_bits(a: u32, b: u32) -> bool {
    !is_nan_bits(a) && !is_nan_bits(b) && key_of(a) == key_of(b)
}

/// True iff `b` is a NaN pattern.
pub fn is_nan(b: u32) -> (r: bool)
    ensures
        r == is_nan_bits(b),
{
    (b >> 23) & 0xff == 0xff && b & 0x7f_ffff != 0
}

/// True iff `b` is a finite pattern.
pub fn is_finite(b: u32) -> (r: bool)
    ensures
        r == is_finite_bits(b),
{
    (b >> 23) & 0xff != 0xff
}

/// True iff `b` is a normal pattern.
pub fn is_normal(b: u32) -> (r: bool)
    ensures
        r == is_normal_bits(b),
{
    let e = (b >> 23) & 0xff;
    e != 0 && e != 0xff
}

/// True iff `b` is a zero pattern.
pub fn is_zero(b: u32) -> (r: bool)
    ensures
        r == is_zero_bits(b),
{
    b & 0x7fff_ffff == 0
}


/// IEEE `a < b` on patterns, as pure bit logic.
pub fn lt(a: u32, b: u32) -> (r: bool)
    ensures
        r == lt_bits(a, b),
{
    if is_nan(a) || is_nan(b) {
        return false;
    }
    let neg_a = a >> 31 == 1;
    let neg_b = b >> 31 == 1;
    let mag_a = a & 0x7fff_ffff;
    let mag_b = b & 0x7fff_ffff;
    if neg_a {
        if neg_b {
            mag_b < mag_a
        } else {
            mag_a > 0 || mag_b > 0
        }
    } else {
        if neg_b {
            false
        } else {
            mag_a < mag_b
        }
    }
}

/// IEEE `a <= b` on patterns, as pure bit logic.
pub fn le(a: u32, b: u32) -> (r: bool)
    ensures
        r == le_bits(a, b),
{
    if is_nan(a) || is_nan(b) {
        return false;
    }
    !lt(b, a)
}

/// IEEE `a == b` on patterns, as pure bit logic.
pub fn feq(a: u32, b: u32) -> (r: bool)
    ensures
        r == eq_bits(a, b),
{
    if is_nan(a) || is_nan(b) {
        return false;
    }
    let mag_a = a & 0x7fff_ffff;
    let mag_b = b & 0x7fff_ffff;
    if mag_a == 0 && mag_b == 0 {
        true
    } else {
        proof {
            assert((a == b) == (a >> 31 == b >> 31 && a & 0x7fff_ffff == b & 0x7fff_ffff))
                by (bit_vector);
            assert(a >> 31 == 0 || a >> 31 == 1) by (bit_vector);
            assert(b >> 31 == 0 || b >> 31 == 1) by (bit_vector);
        }
        a == b
    }
}

} // verus!
