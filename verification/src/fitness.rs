//! Costs as IEEE 754 binary32 bit patterns.
//!
//! A cost function reports a single-precision number. The optimizer never
//! computes with it: it only asks whether it is finite and which of two costs
//! is lower. Both questions are answered on the bit pattern, so that infinities
//! and NaN have a defined treatment.

use vstd::prelude::*;

verus! {

/// The bit pattern whose top bit (the sign) is set and all others are clear.
pub const SIGN_BIT: u32 = 0x8000_0000;

/// The bit pattern of positive infinity: exponent field all ones, fraction zero.
pub const INFINITY_BITS: u32 = 0x7f80_0000;

/// Exponent and fraction of a bit pattern, read as one unsigned number.
pub open spec fn magnitude(bits: u32) -> int {
    if bits >= SIGN_BIT {
        bits - SIGN_BIT
    } else {
        bits as int
    }
}

/// The number is neither an infinity nor a NaN.
pub open spec fn is_finite(bits: u32) -> bool {
    magnitude(bits) < INFINITY_BITS
}

/// The bit pattern is a NaN: exponent field all ones, fraction not zero.
pub open spec fn is_nan(bits: u32) -> bool {
    magnitude(bits) > INFINITY_BITS
}

/// An integer that orders bit patterns as their numbers are ordered.
///
/// For patterns that are not NaN, `a < b` as numbers exactly when
/// `order_key(a) < order_key(b)`, and `a == b` as numbers exactly when the keys
/// are equal; both zeros have key 0.
pub open spec fn order_key(bits: u32) -> int {
    if bits >= SIGN_BIT {
        -magnitude(bits)
    } else {
        magnitude(bits)
    }
}

/// Whether `bits` is a finite number.
pub fn finite(bits: u32) -> (r: bool)
    ensures
        r == is_finite(bits),
{
    if bits >= SIGN_BIT {
        bits - SIGN_BIT < INFINITY_BITS
    } else {
        bits < INFINITY_BITS
    }
}

/// Whether `bits` is a NaN, which compares with no number.
pub fn nan(bits: u32) -> (r: bool)
    ensures
        r == is_nan(bits),
{
    if bits >= SIGN_BIT {
        bits - SIGN_BIT > INFINITY_BITS
    } else {
        bits > INFINITY_BITS
    }
}

/// The order key of `bits`.
pub fn key(bits: u32) -> (k: i64)
    ensures
        k == order_key(bits),
{
    if bits >= SIGN_BIT {
        let m: u32 = bits - SIGN_BIT;
        let wide: i64 = m as i64;
        0 - wide
    } else {
        bits as i64
    }
}

/// Whether the number `a` is strictly lower than the number `b`.
pub fn lower(a: u32, b: u32) -> (r: bool)
    ensures
        r == (order_key(a) < order_key(b)),
{
    key(a) < key(b)
}

} // verus!
