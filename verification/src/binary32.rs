//! IEEE 754 binary32 numbers, handled through their bit patterns.
//!
//! Bit 31 is the sign, bits 30 to 23 the biased exponent and bits 22 to 0 the
//! fraction. Everything here is integer arithmetic on those three fields.

use vstd::arithmetic::power2::{lemma2_to64, lemma_pow2_strictly_increases, pow2};
use vstd::bits::{lemma_u32_shl_is_mul, lemma_u32_shr_is_div};
use vstd::prelude::*;

verus! {

/// The weight of the sign bit.
pub const SIGN_BIT: u32 = 0x8000_0000;

/// The weight of the lowest exponent bit; the fraction lies below it.
pub const EXPONENT_UNIT: u32 = 0x80_0000;

/// The exponent field of a number of magnitude one.
pub const EXPONENT_BIAS: u32 = 127;

/// Whether the sign bit is set.
pub open spec fn is_negative(bits: u32) -> bool {
    bits >= SIGN_BIT
}

/// The biased exponent field.
pub open spec fn exponent_field(bits: u32) -> nat {
    ((bits / EXPONENT_UNIT) % 256) as nat
}

/// The fraction field.
pub open spec fn fraction_field(bits: u32) -> nat {
    (bits % EXPONENT_UNIT) as nat
}

/// Whether the pattern stands for no number at all.
pub open spec fn is_nan(bits: u32) -> bool {
    exponent_field(bits) == 255 && fraction_field(bits) != 0
}

/// Whether the pattern is one of the two zeros.
pub open spec fn is_zero(bits: u32) -> bool {
    bits % SIGN_BIT == 0
}

/// The whole part of the magnitude of a normal number that is at least one:
/// the 24-bit significand scaled by two to the unbiased exponent less 23.
pub open spec fn whole_magnitude(bits: u32) -> nat
    recommends
        EXPONENT_BIAS <= exponent_field(bits) < 255,
{
    let significand = EXPONENT_UNIT as nat + fraction_field(bits);
    let exponent = exponent_field(bits);
    if exponent >= 150 {
        significand * pow2((exponent - 150) as nat)
    } else {
        significand / pow2((150 - exponent) as nat)
    }
}

/// The number as a 32-bit integer: rounded towards zero, held to the nearest
/// bound where it lies outside the integer range, and zero for a NaN.
pub open spec fn to_i32_spec(bits: u32) -> i32 {
    if is_nan(bits) || exponent_field(bits) < EXPONENT_BIAS {
        0
    } else if exponent_field(bits) >= EXPONENT_BIAS + 31 {
        if is_negative(bits) {
            i32::MIN
        } else {
            i32::MAX
        }
    } else if is_negative(bits) {
        (-(whole_magnitude(bits) as int)) as i32
    } else {
        whole_magnitude(bits) as i32
    }
}

/// Numeric equality: a NaN equals nothing, the two zeros equal each other,
/// and any other two patterns are equal when they are the same.
pub open spec fn equal_spec(a: u32, b: u32) -> bool {
    !is_nan(a) && !is_nan(b) && (a == b || (is_zero(a) && is_zero(b)))
}

/// Below exponent field 158 the whole magnitude fits a positive `i32`.
pub proof fn lemma_whole_magnitude_bound(bits: u32)
    requires
        EXPONENT_BIAS <= exponent_field(bits) < EXPONENT_BIAS + 31,
    ensures
        1 <= whole_magnitude(bits) < 0x8000_0000,
{
    let significand = EXPONENT_UNIT as nat + fraction_field(bits);
    let exponent = exponent_field(bits);
    lemma2_to64();
    if exponent >= 150 {
        let shift = (exponent - 150) as nat;
        if shift < 7 {
            lemma_pow2_strictly_increases(shift, 7);
        }
        assert(1 <= pow2(shift) <= 128) by {
            if shift > 0 {
                lemma_pow2_strictly_increases(0, shift);
            }
        }
        assert(significand * pow2(shift) < 0x8000_0000) by (nonlinear_arith)
            requires
                significand < 0x100_0000,
                pow2(shift) <= 128,
        ;
        assert(significand * pow2(shift) >= 1) by (nonlinear_arith)
            requires
                significand >= 1,
                pow2(shift) >= 1,
        ;
    } else {
        let shift = (150 - exponent) as nat;
        if shift < 23 {
            lemma_pow2_strictly_increases(shift, 23);
        }
        assert(1 <= pow2(shift) <= 0x80_0000) by {
            lemma_pow2_strictly_increases(0, shift);
        }
        assert(1 <= significand / pow2(shift) < 0x8000_0000) by (nonlinear_arith)
            requires
                0x80_0000 <= significand < 0x100_0000,
                1 <= pow2(shift) <= 0x80_0000,
        ;
    }
}

/// Converts the number to a 32-bit integer.
#[verifier::when_used_as_spec(to_i32_spec)]
pub fn to_i32(bits: u32) -> (n: i32)
    ensures
        n == to_i32_spec(bits),
{
    let exponent: u32 = (bits / EXPONENT_UNIT) % 256;
    let fraction: u32 = bits % EXPONENT_UNIT;
    let negative = bits >= SIGN_BIT;
    if exponent == 255 && fraction != 0 {
        return 0;
    }
    if exponent < EXPONENT_BIAS {
        return 0;
    }
    if exponent >= EXPONENT_BIAS + 31 {
        return if negative {
            i32::MIN
        } else {
            i32::MAX
        };
    }
    let significand: u32 = EXPONENT_UNIT + fraction;
    proof {
        lemma_whole_magnitude_bound(bits);
    }
    let magnitude: u32 = if exponent >= 150 {
        let shift: u32 = exponent - 150;
        proof {
            lemma_u32_shl_is_mul(significand, shift);
        }
        significand << shift
    } else {
        let shift: u32 = 150 - exponent;
        proof {
            lemma_u32_shr_is_div(significand, shift);
        }
        significand >> shift
    };
    assert(magnitude == whole_magnitude(bits));
    if negative {
        -(magnitude as i32)
    } else {
        magnitude as i32
    }
}

/// Compares two numbers.
#[verifier::when_used_as_spec(equal_spec)]
pub fn equal(a: u32, b: u32) -> (same: bool)
    ensures
        same == equal_spec(a, b),
{
    let a_nan = (a / EXPONENT_UNIT) % 256 == 255 && a % EXPONENT_UNIT != 0;
    let b_nan = (b / EXPONENT_UNIT) % 256 == 255 && b % EXPONENT_UNIT != 0;
    !a_nan && !b_nan && (a == b || (a % SIGN_BIT == 0 && b % SIGN_BIT == 0))
}

} // verus!
