//! IEEE-754 single-precision numbers, handled by their 32-bit encodings.
//!
//! The verifier reasons about integers, so a single-precision number is
//! carried as the `u32` that encodes it: one sign bit, eight exponent bits and
//! twenty-three fraction bits, from the most significant bit down. Callers
//! convert at the boundary. This module decides what a number is (is it a
//! NaN, is it below another); [`crate::arith`] computes with numbers.
//!
//! The model of an encoding is an integer: the encoded number multiplied by
//! two to the power 149, which is whole for every finite encoding. Infinity
//! has no such multiple; it is given the magnitude that the exponent field
//! would yield if it were read like any other, two to the power 277, which
//! lies above every finite magnitude. A NaN has no place in the order.

use vstd::prelude::*;
use vstd::arithmetic::mul::{
    lemma_mul_inequality,
    lemma_mul_left_inequality,
    lemma_mul_strict_inequality,
};
use vstd::arithmetic::power2::{
    pow2,
    lemma_pow2_pos,
    lemma_pow2_strictly_increases,
    lemma_pow2_unfold,
};

verus! {

/// The encoding with only the sign bit set, which is also the encoding of -0.
pub const SIGN_BIT: u32 = 0x8000_0000;

/// The encoding of positive infinity: every exponent bit set, no fraction bit.
pub const INFINITY_BITS: u32 = 0x7F80_0000;

/// The weight of the lowest exponent bit: two to the power 23.
pub const FRACTION_SPAN: u32 = 0x0080_0000;

/// Whether the sign bit of `bits` is set.
pub open spec fn sign_of(bits: u32) -> bool {
    bits >= SIGN_BIT
}

/// The encoding `bits` with its sign bit cleared.
pub open spec fn magnitude_of(bits: u32) -> u32 {
    if bits >= SIGN_BIT {
        (bits - SIGN_BIT) as u32
    } else {
        bits
    }
}

/// The exponent field of `bits`, between 0 and 255.
pub open spec fn exponent_of(bits: u32) -> nat {
    (magnitude_of(bits) / FRACTION_SPAN) as nat
}

/// The fraction field of `bits`, below two to the power 23.
pub open spec fn fraction_of(bits: u32) -> nat {
    (magnitude_of(bits) % FRACTION_SPAN) as nat
}

/// Whether `bits` encodes a NaN: every exponent bit set and some fraction bit.
pub open spec fn encodes_nan(bits: u32) -> bool {
    magnitude_of(bits) > INFINITY_BITS
}

/// The absolute value of the number that `bits` encodes, multiplied by two to
/// the power 149. With a zero exponent field the fraction counts units of the
/// smallest step; otherwise the fraction gains its hidden leading bit and is
/// doubled once for every exponent above one.
pub open spec fn scaled_magnitude(bits: u32) -> int {
    if exponent_of(bits) == 0 {
        fraction_of(bits) as int
    } else {
        (FRACTION_SPAN + fraction_of(bits)) * pow2((exponent_of(bits) - 1) as nat)
    }
}

/// The number that `bits` encodes, multiplied by two to the power 149.
/// Both zeros have the value 0.
pub open spec fn scaled_value(bits: u32) -> int {
    if sign_of(bits) {
        -scaled_magnitude(bits)
    } else {
        scaled_magnitude(bits)
    }
}

/// The order of single-precision numbers: neither is a NaN and the first
/// encodes the smaller number.
pub open spec fn below(a: u32, b: u32) -> bool {
    !encodes_nan(a) && !encodes_nan(b) && scaled_value(a) < scaled_value(b)
}

proof fn lemma_pow2_monotone(low: nat, high: nat)
    requires
        low <= high,
    ensures
        pow2(low) <= pow2(high),
{
    if low < high {
        lemma_pow2_strictly_increases(low, high);
    }
}

/// With a nonzero exponent field `e`, the scaled magnitude lies in the
/// half-open range from `2^23 * 2^(e-1)` to `2^23 * 2^e`.
proof fn lemma_magnitude_band(bits: u32)
    requires
        exponent_of(bits) >= 1,
    ensures
        FRACTION_SPAN * pow2((exponent_of(bits) - 1) as nat) <= scaled_magnitude(bits),
        scaled_magnitude(bits) < FRACTION_SPAN * pow2(exponent_of(bits)),
{
    let e: nat = exponent_of(bits);
    let f: int = fraction_of(bits) as int;
    let span: int = FRACTION_SPAN as int;
    let unit: int = pow2((e - 1) as nat) as int;
    lemma_pow2_pos((e - 1) as nat);
    lemma_pow2_unfold(e);
    lemma_mul_inequality(span, span + f, unit);
    lemma_mul_strict_inequality(span + f, 2 * span, unit);
    assert((2 * span) * unit == span * (2 * unit)) by (nonlinear_arith);
}

/// The scaled magnitude grows strictly with the magnitude bits.
proof fn lemma_magnitude_increases(a: u32, b: u32)
    requires
        magnitude_of(a) < magnitude_of(b),
    ensures
        scaled_magnitude(a) < scaled_magnitude(b),
{
    let ea: nat = exponent_of(a);
    let eb: nat = exponent_of(b);
    let span: int = FRACTION_SPAN as int;
    if ea == eb {
        if ea != 0 {
            lemma_pow2_pos((ea - 1) as nat);
            lemma_mul_strict_inequality(
                span + fraction_of(a),
                span + fraction_of(b),
                pow2((ea - 1) as nat) as int,
            );
        }
    } else {
        assert(ea < eb);
        lemma_magnitude_band(b);
        let floor_b: int = span * pow2((eb - 1) as nat);
        if ea == 0 {
            lemma_pow2_pos((eb - 1) as nat);
            assert(span * 1 <= floor_b) by {
                lemma_mul_left_inequality(span, 1, pow2((eb - 1) as nat) as int);
            }
        } else {
            lemma_magnitude_band(a);
            lemma_pow2_monotone(ea, (eb - 1) as nat);
            lemma_mul_left_inequality(span, pow2(ea) as int, pow2((eb - 1) as nat) as int);
        }
    }
}

/// Magnitude bits and scaled magnitudes are ordered alike.
pub proof fn lemma_magnitude_order(a: u32, b: u32)
    ensures
        magnitude_of(a) < magnitude_of(b) <==> scaled_magnitude(a) < scaled_magnitude(b),
        magnitude_of(a) == magnitude_of(b) <==> scaled_magnitude(a) == scaled_magnitude(b),
{
    if magnitude_of(a) < magnitude_of(b) {
        lemma_magnitude_increases(a, b);
    } else if magnitude_of(b) < magnitude_of(a) {
        lemma_magnitude_increases(b, a);
    }
}

/// Only the two zeros have the scaled value 0.
pub proof fn lemma_zero_value(bits: u32)
    ensures
        scaled_value(bits) == 0 <==> magnitude_of(bits) == 0,
{
    lemma_magnitude_order(bits, 0);
}

/// Clears the sign bit of an encoding.
pub fn magnitude(bits: u32) -> (m: u32)
    ensures
        m == magnitude_of(bits),
        m < SIGN_BIT,
{
    if bits >= SIGN_BIT {
        bits - SIGN_BIT
    } else {
        bits
    }
}

/// Whether an encoding is a NaN.
pub fn is_nan(bits: u32) -> (nan: bool)
    ensures
        nan == encodes_nan(bits),
{
    magnitude(bits) > INFINITY_BITS
}

/// Whether `a` encodes a smaller number than `b`, as the hardware comparison
/// `a < b` decides it: false when either is a NaN, and false between the two
/// zeros.
pub fn lt(a: u32, b: u32) -> (less: bool)
    ensures
        less == below(a, b),
{
    let ma: u32 = magnitude(a);
    let mb: u32 = magnitude(b);
    if ma > INFINITY_BITS || mb > INFINITY_BITS {
        return false;
    }
    proof {
        lemma_magnitude_order(a, b);
        lemma_zero_value(a);
        lemma_zero_value(b);
    }
    if a >= SIGN_BIT {
        if b >= SIGN_BIT {
            mb < ma
        } else {
            ma != 0 || mb != 0
        }
    } else {
        if b >= SIGN_BIT {
            false
        } else {
            ma < mb
        }
    }
}

/// Whether `a` encodes a greater number than `b`, as the hardware comparison
/// `a > b` decides it.
pub fn gt(a: u32, b: u32) -> (greater: bool)
    ensures
        greater == below(b, a),
{
    lt(b, a)
}

} // verus!
