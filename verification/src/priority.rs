//! Numeric order of single-precision values, computed on their bit patterns.

use vstd::prelude::*;

verus! {

/// Bit pattern of positive infinity.
pub const INFINITY: u32 = 0x7f80_0000;

/// Bit pattern whose only set bit is the sign.
pub const SIGN_BIT: u32 = 0x8000_0000;

/// The pattern without its sign.
pub open spec fn magnitude(bits: u32) -> int {
    if bits >= SIGN_BIT {
        bits - SIGN_BIT
    } else {
        bits as int
    }
}

/// Whether the pattern encodes a NaN: exponent all ones, mantissa not zero.
pub open spec fn is_nan(bits: u32) -> bool {
    magnitude(bits) > INFINITY
}

/// Position of a non-NaN pattern on the number line: `a` is numerically below
/// `b` exactly when `rank(a) < rank(b)`. Both zeros have rank 0.
pub open spec fn rank(bits: u32) -> int {
    if bits >= SIGN_BIT {
        -magnitude(bits)
    } else {
        magnitude(bits)
    }
}

/// IEEE-754 `<=` on patterns: false as soon as one side is a NaN.
pub open spec fn float_le(a: u32, b: u32) -> bool {
    !is_nan(a) && !is_nan(b) && rank(a) <= rank(b)
}

/// IEEE-754 `<` on patterns: false as soon as one side is a NaN.
pub open spec fn float_lt(a: u32, b: u32) -> bool {
    !is_nan(a) && !is_nan(b) && rank(a) < rank(b)
}

/// Tells whether the pattern encodes a NaN.
pub fn nan(bits: u32) -> (r: bool)
    ensures
        r == is_nan(bits),
{
    let m: u32 = if bits >= SIGN_BIT {
        bits - SIGN_BIT
    } else {
        bits
    };
    m > INFINITY
}

/// Computes the rank of a pattern.
pub fn rank_of(bits: u32) -> (r: i64)
    ensures
        r == rank(bits),
{
    if bits >= SIGN_BIT {
        -((bits - SIGN_BIT) as i64)
    } else {
        bits as i64
    }
}

/// Numeric `<` of two patterns.
pub fn less(a: u32, b: u32) -> (r: bool)
    ensures
        r == float_lt(a, b),
{
    !nan(a) && !nan(b) && rank_of(a) < rank_of(b)
}

/// Numeric `<=` of two patterns.
pub fn less_or_equal(a: u32, b: u32) -> (r: bool)
    ensures
        r == float_le(a, b),
{
    !nan(a) && !nan(b) && rank_of(a) <= rank_of(b)
}

} // verus!
