//! IEEE 754 single-precision samples, held by their 32-bit pattern.
//!
//! A sample travels through this library as the `u32` that encodes it: one
//! sign bit, eight bits of biased exponent and twenty-three fraction bits.
//! Every finite single-precision number is a whole multiple of `2^-149`, so
//! the contracts measure samples in that unit and reason over `int`:
//! the number `1.0` is `2^149` units, and no rounding enters the model except
//! where a function says so.

use vstd::prelude::*;
use vstd::arithmetic::power2::{pow2, lemma_pow2_adds, lemma_pow2_pos, lemma_pow2_strictly_increases, lemma2_to64};
use vstd::arithmetic::mul::{lemma_mul_inequality, lemma_mul_strict_inequality, lemma_mul_is_commutative};

verus! {

/// Bit pattern of `1.0`.
pub const ONE_BITS: u32 = 0x3f80_0000;

/// Bit pattern of `-1.0`.
pub const MINUS_ONE_BITS: u32 = 0xbf80_0000;

/// Whether the sign bit is set. Holds of `-0.0` too.
pub open spec fn sign_negative(bits: u32) -> bool {
    bits >= 0x8000_0000
}

/// The eight exponent bits, as a number in `0..=255`.
pub open spec fn biased_exponent(bits: u32) -> nat {
    (bits as nat / 0x80_0000) % 0x100
}

/// The twenty-three fraction bits, as a number below `2^23`.
pub open spec fn fraction(bits: u32) -> nat {
    bits as nat % 0x80_0000
}

/// Whether the pattern encodes a NaN.
pub open spec fn is_nan(bits: u32) -> bool {
    biased_exponent(bits) == 0xff && fraction(bits) != 0
}

/// Whether the pattern encodes positive or negative infinity.
pub open spec fn is_infinite(bits: u32) -> bool {
    biased_exponent(bits) == 0xff && fraction(bits) == 0
}

/// The number `1.0`, in units of `2^-149`.
pub open spec fn one() -> nat {
    pow2(149)
}

/// Absolute value of the encoded number, in units of `2^-149`.
///
/// Subnormal numbers and zero have a biased exponent of 0 and are worth their
/// fraction bits alone; every other pattern carries an implicit leading bit.
/// An infinity is given the magnitude `2^128`, which lies above every finite
/// single-precision number: only its order among the finite values matters.
/// The result has no meaning for a NaN.
pub open spec fn magnitude(bits: u32) -> nat {
    if biased_exponent(bits) == 0 {
        fraction(bits)
    } else {
        (0x80_0000 + fraction(bits)) * pow2((biased_exponent(bits) - 1) as nat)
    }
}

/// The encoded number, in units of `2^-149`. Both zeros are worth 0.
pub open spec fn value(bits: u32) -> int {
    if sign_negative(bits) {
        -(magnitude(bits) as int)
    } else {
        magnitude(bits) as int
    }
}

/// The three fields of a single-precision bit pattern.
#[derive(Clone, Copy, Debug, PartialEq, Eq)]
pub struct Fields {
    /// The sign bit.
    pub negative: bool,
    /// The biased exponent, `0..=255`.
    pub exponent: u32,
    /// The fraction bits, below `2^23`.
    pub fraction: u32,
}

/// Splits a bit pattern into sign, biased exponent and fraction.
pub fn decode(bits: u32) -> (fields: Fields)
    ensures
        fields.negative == sign_negative(bits),
        fields.exponent == biased_exponent(bits),
        fields.fraction == fraction(bits),
        fields.exponent <= 0xff,
        fields.fraction < 0x80_0000,
{
    assert((bits >> 31) != 0 <==> bits >= 0x8000_0000) by (bit_vector);
    assert((bits >> 23) & 0xff == (bits / 0x80_0000) % 0x100) by (bit_vector);
    assert(bits & 0x7f_ffff == bits % 0x80_0000) by (bit_vector);
    Fields {
        negative: (bits >> 31) != 0,
        exponent: (bits >> 23) & 0xff,
        fraction: bits & 0x7f_ffff,
    }
}

/// A pattern whose biased exponent is at least 127 has a magnitude of 1 or
/// more.
pub proof fn lemma_magnitude_at_least_one(bits: u32)
    requires
        biased_exponent(bits) >= 127,
    ensures
        magnitude(bits) >= one(),
{
    let e = (biased_exponent(bits) - 1) as nat;
    let m = 0x80_0000 + fraction(bits);
    lemma2_to64();
    lemma_pow2_adds(23, 126);
    if e > 126 {
        lemma_pow2_strictly_increases(126, e);
    }
    lemma_pow2_pos(e);
    // 2^23 * 2^126 <= 2^23 * 2^e <= m * 2^e
    lemma_mul_inequality(pow2(126) as int, pow2(e) as int, 0x80_0000);
    lemma_mul_is_commutative(pow2(126) as int, 0x80_0000);
    lemma_mul_is_commutative(pow2(e) as int, 0x80_0000);
    lemma_mul_inequality(0x80_0000, m as int, pow2(e) as int);
}

/// A pattern whose biased exponent is `limit` or less encodes a number below
/// `2^(limit - 126)` in absolute value: its magnitude is under
/// `2^(limit + 23)` units.
pub proof fn lemma_magnitude_below(bits: u32, limit: nat)
    requires
        biased_exponent(bits) <= limit,
        limit >= 1,
    ensures
        magnitude(bits) < pow2(limit + 23),
{
    lemma2_to64();
    lemma_pow2_adds(24, (limit - 1) as nat);
    lemma_pow2_pos((limit - 1) as nat);
    if biased_exponent(bits) == 0 {
        // fraction < 2^23 < 2^24 <= 2^24 * 2^(limit - 1)
        lemma_mul_inequality(1, pow2((limit - 1) as nat) as int, 0x100_0000);
        lemma_mul_is_commutative(pow2((limit - 1) as nat) as int, 0x100_0000);
    } else {
        let e = (biased_exponent(bits) - 1) as nat;
        let m = 0x80_0000 + fraction(bits);
        lemma_pow2_pos(e);
        if e < limit - 1 {
            lemma_pow2_strictly_increases(e, (limit - 1) as nat);
        }
        // m * 2^e < 2^24 * 2^e <= 2^24 * 2^(limit - 1)
        lemma_mul_strict_inequality(m as int, 0x100_0000, pow2(e) as int);
        lemma_mul_inequality(pow2(e) as int, pow2((limit - 1) as nat) as int, 0x100_0000);
        lemma_mul_is_commutative(pow2(e) as int, 0x100_0000);
        lemma_mul_is_commutative(pow2((limit - 1) as nat) as int, 0x100_0000);
    }
}

} // verus!
