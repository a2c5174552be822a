//! IEEE 754 binary64 values carried by their bit patterns.
//!
//! Thresholds and confidences are binary64 numbers. The library keeps them as
//! the `u64` bit pattern that `f64::to_bits` gives and compares them exactly as
//! IEEE 754 orders the numbers they stand for.
use vstd::prelude::*;

verus! {

/// The sign bit of a binary64 pattern.
pub const SIGN_BIT: u64 = 0x8000_0000_0000_0000;

/// The exponent field of a binary64 pattern.
pub const EXPONENT_BITS: u64 = 0x7ff0_0000_0000_0000;

/// The fraction field of a binary64 pattern.
pub const FRACTION_BITS: u64 = 0x000f_ffff_ffff_ffff;

/// The pattern of `1.0`.
pub const ONE: u64 = 0x3ff0_0000_0000_0000;

/// The pattern of `0.5`.
pub const HALF: u64 = 0x3fe0_0000_0000_0000;

/// The pattern of `0.0`.
pub const ZERO: u64 = 0;

/// The pattern stands for NaN: all exponent bits set and a nonzero fraction.
pub open spec fn is_nan(bits: u64) -> bool {
    (bits & EXPONENT_BITS) == EXPONENT_BITS && (bits & FRACTION_BITS) != 0
}

/// The pattern stands for a finite number: not all exponent bits are set.
pub open spec fn is_finite(bits: u64) -> bool {
    (bits & EXPONENT_BITS) != EXPONENT_BITS
}

/// The magnitude of a pattern, the pattern without its sign bit.
pub open spec fn magnitude(bits: u64) -> u64 {
    bits & !SIGN_BIT
}

/// A key whose integer order is the numeric order of all non-NaN values:
/// negative values map to the negated magnitude, and both zeros to 0.
pub open spec fn order_key(bits: u64) -> int {
    if bits & SIGN_BIT != 0 {
        -(magnitude(bits) as int)
    } else {
        magnitude(bits) as int
    }
}

/// `a < b` as IEEE 754 evaluates it (false when either is NaN).
pub open spec fn lt(a: u64, b: u64) -> bool {
    !is_nan(a) && !is_nan(b) && order_key(a) < order_key(b)
}

/// `a >= b` as IEEE 754 evaluates it (false when either is NaN).
pub open spec fn ge(a: u64, b: u64) -> bool {
    !is_nan(a) && !is_nan(b) && order_key(a) >= order_key(b)
}

/// `f64::is_nan`.
pub fn f64_is_nan(bits: u64) -> (r: bool)
    ensures
        r == is_nan(bits),
{
    (bits & EXPONENT_BITS) == EXPONENT_BITS && (bits & FRACTION_BITS) != 0
}

/// `f64::is_finite`.
pub fn f64_is_finite(bits: u64) -> (r: bool)
    ensures
        r == is_finite(bits),
{
    (bits & EXPONENT_BITS) != EXPONENT_BITS
}

/// Compares the order keys of two patterns without leaving `u64`.
fn key_lt(a: u64, b: u64) -> (r: bool)
    ensures
        r == (order_key(a) < order_key(b)),
{
    let ma = a & !SIGN_BIT;
    let mb = b & !SIGN_BIT;
    let na = a & SIGN_BIT != 0;
    let nb = b & SIGN_BIT != 0;
    if na && nb {
        mb < ma
    } else if na {
        !(ma == 0 && mb == 0)
    } else if nb {
        false
    } else {
        ma < mb
    }
}

/// `a < b` on the numbers the patterns stand for.
pub fn f64_lt(a: u64, b: u64) -> (r: bool)
    ensures
        r == lt(a, b),
{
    !f64_is_nan(a) && !f64_is_nan(b) && key_lt(a, b)
}

/// `a >= b` on the numbers the patterns stand for.
pub fn f64_ge(a: u64, b: u64) -> (r: bool)
    ensures
        r == ge(a, b),
{
    !f64_is_nan(a) && !f64_is_nan(b) && !key_lt(a, b)
}

/// `f64::min(value, 1.0)`: NaN gives `1.0`, a value above one gives `1.0`,
/// every other value is kept.
pub open spec fn min_one(bits: u64) -> u64 {
    if is_nan(bits) || lt(ONE, bits) {
        ONE
    } else {
        bits
    }
}

/// `value.min(1.0)` as `f64::min` computes it.
pub fn f64_min_one(bits: u64) -> (r: u64)
    ensures
        r == min_one(bits),
{
    if f64_is_nan(bits) || f64_lt(ONE, bits) {
        ONE
    } else {
        bits
    }
}

} // verus!
