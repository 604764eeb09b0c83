//! Conversion of single-precision samples to 16-bit signed PCM.
//!
//! A sample is clamped to `[-1.0, 1.0]`, multiplied by 32767 in single
//! precision, and truncated toward zero. The contracts state this over
//! exact integers, in units of `2^-149` (see [`crate::binary32`]); the
//! executable code works on the bit patterns with integer arithmetic alone,
//! so that every target produces the same sixteen bits.

use vstd::prelude::*;
use vstd::arithmetic::power2::{pow2, lemma_pow2_adds, lemma_pow2_pos, lemma_pow2_strictly_increases, lemma2_to64, lemma2_to64_rest};
use vstd::arithmetic::div_mod::{
    lemma_basic_div, lemma_div_by_multiple, lemma_div_is_ordered,
    lemma_div_is_ordered_by_denominator, lemma_div_multiples_vanish_quotient,
    lemma_mod_multiples_basic,
};
use vstd::arithmetic::mul::lemma_mul_is_commutative;
use vstd::bits::lemma_u64_shr_is_div;
use crate::binary32::{
    biased_exponent, decode, fraction, is_nan, magnitude, one, sign_negative, value,
    lemma_magnitude_at_least_one, lemma_magnitude_below, MINUS_ONE_BITS, ONE_BITS,
};
use crate::buffer::filled;
use crate::rounding::{
    bit_length, round_ties_even, spacing, lemma_bit_length_at_most, lemma_bit_length_between,
    lemma_round_is_near, lemma_round_scaled, lemma_round_stays_between_multiples,
};

verus! {

/// The factor a clamped sample is multiplied by: the largest 16-bit signed
/// integer.
pub const FULL_SCALE: i16 = 32767;

/// `v` restricted to `[-1.0, 1.0]`, in units of `2^-149`.
pub open spec fn clamp(v: int) -> int {
    vstd::math::max(-(one() as int), vstd::math::min(one() as int, v))
}

/// The single-precision product of `c` and 32767: the exact product, rounded
/// to nearest with ties to even. Rounding treats both signs alike.
pub open spec fn scale(c: int) -> int {
    let exact = c * 32767;
    if exact >= 0 {
        round_ties_even(exact as nat) as int
    } else {
        -(round_ties_even((-exact) as nat) as int)
    }
}

/// The integer part of `v`, a number in units of `2^-149`: the fraction is
/// dropped, toward zero.
pub open spec fn truncate(v: int) -> int {
    if v >= 0 {
        v / (one() as int)
    } else {
        -((-v) / (one() as int))
    }
}

/// The PCM value of a single-precision sample: clamped, scaled, truncated.
/// A NaN, which no clamp can order, converts to 0.
pub open spec fn pcm_of(bits: u32) -> int {
    if is_nan(bits) {
        0
    } else {
        truncate(scale(clamp(value(bits))))
    }
}

/// The absolute value of `pcm_of`, computed on the magnitude of the sample.
pub open spec fn pcm_magnitude(bits: u32) -> nat {
    round_ties_even(vstd::math::min(one() as int, magnitude(bits) as int) as nat * 32767) / one()
}

/// The significand of a normal sample times 32767: what is left of the exact
/// product when the power of two is set aside.
pub open spec fn significand_product(bits: u32) -> nat {
    (0x80_0000 + fraction(bits)) * 32767
}

/// Clamping, scaling and truncation are odd functions, so a sample converts
/// to the value of its magnitude, with its sign.
pub proof fn lemma_pcm_sign(bits: u32)
    requires
        !is_nan(bits),
    ensures
        pcm_of(bits) == if sign_negative(bits) {
            -(pcm_magnitude(bits) as int)
        } else {
            pcm_magnitude(bits) as int
        },
{
    lemma_pow2_pos(149);
    let clamped = vstd::math::min(one() as int, magnitude(bits) as int);
    assert(clamped * 32767 >= 0);
    if sign_negative(bits) {
        assert(clamp(value(bits)) == -clamped);
        assert((-clamped) * 32767 == -(clamped * 32767));
        if clamped == 0 {
            assert(bit_length(0) == 0);
            assert(round_ties_even(0) == 0);
        }
    } else {
        assert(clamp(value(bits)) == clamped);
    }
}

/// At or beyond full scale the result is 32767.
pub proof fn lemma_pcm_magnitude_saturated(bits: u32)
    requires
        biased_exponent(bits) >= 127,
    ensures
        pcm_magnitude(bits) == 32767,
{
    lemma_magnitude_at_least_one(bits);
    lemma2_to64();
    lemma_pow2_adds(9, 140);
    lemma_pow2_pos(149);
    // 32767 * 2^149 == (32767 * 2^9) * 2^140, and 32767 * 2^9 fills 24 bits.
    let top: nat = 16776704;
    assert(one() * 32767 == top * pow2(140)) by (nonlinear_arith)
        requires
            one() == 512 * pow2(140),
            top == 32767 * 512,
    ;
    lemma_bit_length_between(top, 24);
    lemma_round_scaled(top, 140);
    assert(round_ties_even(top) == top);
    lemma_div_by_multiple(32767, one() as int);
}

/// Below `2^-15` the product stays under 1, and so does its rounding.
pub proof fn lemma_pcm_magnitude_small(bits: u32)
    requires
        biased_exponent(bits) <= 111,
    ensures
        pcm_magnitude(bits) == 0,
{
    lemma_magnitude_below(bits, 111);
    lemma2_to64();
    lemma_pow2_adds(15, 134);
    lemma_pow2_adds(9, 125);
    lemma_pow2_pos(125);
    lemma_pow2_pos(134);
    let mag = magnitude(bits);
    let exact = mag * 32767;
    assert(pow2(134) < one()) by {
        lemma_pow2_strictly_increases(134, 149);
    }
    assert(exact + pow2(134) <= one()) by (nonlinear_arith)
        requires
            exact == mag * 32767,
            mag < pow2(134),
            one() == 32768 * pow2(134),
    ;
    lemma_bit_length_at_most(exact, 149);
    assert(spacing(exact) <= pow2(125)) by {
        if bit_length(exact) > 24 && bit_length(exact) < 149 {
            lemma_pow2_strictly_increases((bit_length(exact) - 24) as nat, 125);
        }
    }
    lemma_round_is_near(exact);
    lemma_basic_div(round_ties_even(exact) as int, one() as int);
}

/// Between `2^-15` and 1 the sample is normal and unclamped: the product is
/// rounded on its significand, and truncation shifts the binary point out.
pub proof fn lemma_pcm_magnitude_normal(bits: u32)
    requires
        112 <= biased_exponent(bits) <= 126,
    ensures
        pcm_magnitude(bits) == round_ties_even(significand_product(bits)) / pow2(
            (150 - biased_exponent(bits)) as nat,
        ),
        0x20_0000_0000 <= significand_product(bits) < 0x80_0000_0000,
{
    let e = biased_exponent(bits);
    let low = (e - 1) as nat;
    let high = (150 - e) as nat;
    let m = 0x80_0000 + fraction(bits);
    let product = significand_product(bits);
    lemma_magnitude_below(bits, 126);
    lemma2_to64();
    lemma2_to64_rest();
    lemma_pow2_pos(low);
    lemma_pow2_pos(high);
    lemma_pow2_adds(low, high);
    assert(magnitude(bits) * 32767 == product * pow2(low)) by (nonlinear_arith)
        requires
            magnitude(bits) == m * pow2(low),
            product == m * 32767,
    ;
    if product < 0x40_0000_0000 {
        lemma_bit_length_between(product, 38);
    } else {
        lemma_bit_length_between(product, 39);
    }
    lemma_round_scaled(product, low);
    let rounded = round_ties_even(product);
    lemma_div_multiples_vanish_quotient(pow2(low) as int, rounded as int, pow2(high) as int);
    lemma_mul_is_commutative(pow2(low) as int, rounded as int);
}

/// Rounds the significand product of a normal sample below 1 to 24
/// significant bits.
fn round_product(product: u64) -> (rounded: u64)
    requires
        0x20_0000_0000 <= product < 0x80_0000_0000,
    ensures
        rounded == round_ties_even(product as nat),
        rounded <= product + 0x4000,
{
    proof {
        lemma2_to64();
        lemma2_to64_rest();
        if product < 0x40_0000_0000 {
            lemma_bit_length_between(product as nat, 38);
        } else {
            lemma_bit_length_between(product as nat, 39);
        }
    }
    let step: u64 = if product < 0x40_0000_0000 {
        0x4000
    } else {
        0x8000
    };
    let below = product / step;
    let rest = product % step;
    if 2 * rest > step || (2 * rest == step && below % 2 == 1) {
        (below + 1) * step
    } else {
        below * step
    }
}

/// Converts one sample, given by its bit pattern, to 16-bit PCM.
pub fn convert_sample(bits: u32) -> (pcm: i16)
    ensures
        pcm as int == pcm_of(bits),
{
    let fields = decode(bits);
    if fields.exponent == 0xff && fields.fraction != 0 {
        return 0;
    }
    let magnitude: i16 = if fields.exponent >= 127 {
        proof {
            lemma_pcm_magnitude_saturated(bits);
        }
        FULL_SCALE
    } else if fields.exponent < 112 {
        proof {
            lemma_pcm_magnitude_small(bits);
        }
        0
    } else {
        let product: u64 = (0x80_0000 + fields.fraction as u64) * 32767;
        proof {
            lemma_pcm_magnitude_normal(bits);
        }
        let rounded = round_product(product);
        let shift: u64 = 150 - fields.exponent as u64;
        proof {
            lemma2_to64();
            lemma_u64_shr_is_div(rounded, shift);
            if shift > 24 {
                lemma_pow2_strictly_increases(24, shift as nat);
            }
            lemma_div_is_ordered_by_denominator(rounded as int, 0x100_0000, pow2(shift as nat) as int);
        }
        (rounded >> shift) as i16
    };
    proof {
        lemma_pcm_sign(bits);
    }
    if fields.negative {
        -magnitude
    } else {
        magnitude
    }
}

/// Number of samples converted together as one group.
pub const LANES: usize = 4;

/// Whether `after` is `before` with its first `len` places overwritten by the
/// PCM values of the first `len` samples of `input`, each at its own index.
/// Nothing past `len` is touched and the length stays as it was.
pub open spec fn converted(input: Seq<u32>, before: Seq<i16>, after: Seq<i16>, len: int) -> bool {
    &&& after.len() == before.len()
    &&& forall|i: int| 0 <= i < len ==> (#[trigger] after[i]) as int == pcm_of(input[i])
    &&& forall|i: int| len <= i < before.len() ==> (#[trigger] after[i]) == before[i]
}

/// Converts one full group of samples, lane by lane.
pub fn convert_lanes(lanes: [u32; 4]) -> (pcm: [i16; 4])
    ensures
        forall|k: int| 0 <= k < 4 ==> (#[trigger] pcm[k]) as int == pcm_of(lanes[k]),
{
    [
        convert_sample(lanes[0]),
        convert_sample(lanes[1]),
        convert_sample(lanes[2]),
        convert_sample(lanes[3]),
    ]
}

/// Converts the first `len` samples of `input` into the first `len` places of
/// `output`.
///
/// Samples are taken strictly from left to right: first in groups of
/// [`LANES`], each group read whole before any of its results is written,
/// then one by one for the up to three samples that are left. Every sample
/// goes through the same conversion whichever path it takes. The input is
/// not modified, nothing is allocated, and the two buffers, borrowed as they
/// are, cannot overlap.
pub fn process_audio_simd(input: &[u32], output: &mut [i16], len: usize)
    requires
        len <= input@.len(),
        len <= old(output)@.len(),
    ensures
        converted(input@, old(output)@, final(output)@, len as int),
{
    let groups: usize = len / LANES;
    let mut group: usize = 0;
    while group < groups
        invariant
            groups == len / LANES,
            group <= groups,
            len <= input@.len(),
            len <= output@.len(),
            converted(input@, old(output)@, output@, group * LANES),
        decreases groups - group,
    {
        let base: usize = group * LANES;
        let pcm = convert_lanes([input[base], input[base + 1], input[base + 2], input[base + 3]]);
        output[base] = pcm[0];
        output[base + 1] = pcm[1];
        output[base + 2] = pcm[2];
        output[base + 3] = pcm[3];
        group += 1;
    }
    let mut index: usize = groups * LANES;
    while index < len
        invariant
            index <= len,
            len <= input@.len(),
            len <= output@.len(),
            converted(input@, old(output)@, output@, index as int),
        decreases len - index,
    {
        output[index] = convert_sample(input[index]);
        index += 1;
    }
}

/// A sample at or beyond full scale converts as full scale itself does:
/// whatever lies above `1.0` gives 32767, as `1.0` does, and whatever lies
/// below `-1.0` gives -32767, as `-1.0` does. Infinities are included.
pub proof fn lemma_clamping_saturates(bits: u32)
    requires
        !is_nan(bits),
    ensures
        value(bits) >= one() ==> pcm_of(bits) == pcm_of(ONE_BITS) && pcm_of(bits) == 32767,
        value(bits) <= -(one() as int) ==> pcm_of(bits) == pcm_of(MINUS_ONE_BITS) && pcm_of(bits)
            == -32767,
{
    lemma_pow2_pos(149);
    assert(biased_exponent(ONE_BITS) == 127 && fraction(ONE_BITS) == 0);
    assert(biased_exponent(MINUS_ONE_BITS) == 127 && fraction(MINUS_ONE_BITS) == 0);
    lemma_pcm_magnitude_saturated(ONE_BITS);
    lemma_pcm_magnitude_saturated(MINUS_ONE_BITS);
    lemma_pcm_sign(ONE_BITS);
    lemma_pcm_sign(MINUS_ONE_BITS);
    lemma_pcm_sign(bits);
    if magnitude(bits) >= one() {
        if biased_exponent(bits) <= 126 {
            lemma_magnitude_below(bits, 126);
        }
        lemma_pcm_magnitude_saturated(bits);
    }
}

/// Two samples that clamp to the same value convert to the same PCM value:
/// the conversion sees a sample only through its clamped value.
pub proof fn lemma_clamped_value_decides(a: u32, b: u32)
    requires
        !is_nan(a),
        !is_nan(b),
        clamp(value(a)) == clamp(value(b)),
    ensures
        pcm_of(a) == pcm_of(b),
{
}

/// Every PCM value lies in `-32767..=32767`: the most negative 16-bit integer
/// is never produced.
pub proof fn lemma_pcm_range(bits: u32)
    ensures
        -32767 <= pcm_of(bits) <= 32767,
{
    if !is_nan(bits) {
        lemma_pcm_sign(bits);
        if biased_exponent(bits) >= 127 {
            lemma_pcm_magnitude_saturated(bits);
        } else if biased_exponent(bits) <= 111 {
            lemma_pcm_magnitude_small(bits);
        } else {
            lemma_pcm_magnitude_normal(bits);
            lemma_pcm_magnitude_below_full_scale(bits);
        }
    }
}

/// A sample strictly inside `(-1.0, 1.0)` never reaches full scale.
proof fn lemma_pcm_magnitude_below_full_scale(bits: u32)
    requires
        112 <= biased_exponent(bits) <= 126,
    ensures
        pcm_magnitude(bits) <= 32767,
{
    let product = significand_product(bits);
    let high = (150 - biased_exponent(bits)) as nat;
    lemma_pcm_magnitude_normal(bits);
    lemma2_to64();
    lemma2_to64_rest();
    if product < 0x40_0000_0000 {
        lemma_bit_length_between(product, 38);
    } else {
        lemma_bit_length_between(product, 39);
    }
    lemma_round_is_near(product);
    let rounded = round_ties_even(product);
    assert(rounded < 0x80_0000_0000);
    if high > 24 {
        lemma_pow2_strictly_increases(24, high);
    }
    lemma_div_is_ordered_by_denominator(rounded as int, 0x100_0000, pow2(high) as int);
}

/// The single-precision product is within one step of the exact one: the
/// result is the integer part of the exact product of the clamped sample and
/// 32767, or the next integer away from zero, which it is when the exact
/// product lies so close under that integer that the two round together.
pub proof fn lemma_pcm_near_exact_product(bits: u32)
    requires
        !is_nan(bits),
    ensures
        vstd::math::abs(truncate(clamp(value(bits)) * 32767)) <= vstd::math::abs(pcm_of(bits))
            <= vstd::math::abs(truncate(clamp(value(bits)) * 32767)) + 1,
        (pcm_of(bits) >= 0 && truncate(clamp(value(bits)) * 32767) >= 0) || (pcm_of(bits) <= 0
            && truncate(clamp(value(bits)) * 32767) <= 0),
{
    let clamped = vstd::math::min(one() as int, magnitude(bits) as int) as nat;
    let exact = clamped * 32767;
    let rounded = round_ties_even(exact);
    let whole = exact / one();
    lemma_pcm_sign(bits);
    lemma2_to64();
    lemma_pow2_pos(149);
    lemma_pow2_adds(15, 149);
    assert(exact < pow2(164)) by (nonlinear_arith)
        requires
            exact == clamped * 32767,
            clamped <= one(),
            pow2(164) == 32768 * one(),
            one() > 0,
    ;
    lemma_bit_length_at_most(exact, 164);
    // One is a whole number of spacings at every magnitude below 32768.
    assert(one() % spacing(exact) == 0) by {
        if bit_length(exact) > 24 {
            let low = (bit_length(exact) - 24) as nat;
            let high = (149 - low) as nat;
            lemma_pow2_adds(high, low);
            lemma_pow2_pos(low);
            lemma_mod_multiples_basic(pow2(high) as int, pow2(low) as int);
        }
    }
    lemma_round_stays_between_multiples(exact, one());
    // whole * one <= rounded <= (whole + 1) * one
    lemma_div_is_ordered((whole * one()) as int, rounded as int, one() as int);
    lemma_div_is_ordered(rounded as int, ((whole + 1) * one()) as int, one() as int);
    lemma_div_by_multiple(whole as int, one() as int);
    lemma_div_by_multiple((whole + 1) as int, one() as int);
    assert(whole <= pcm_magnitude(bits) <= whole + 1);
    if sign_negative(bits) {
        assert(clamp(value(bits)) == -(clamped as int));
        assert((-(clamped as int)) * 32767 == -(exact as int)) by (nonlinear_arith)
            requires
                exact == clamped * 32767,
        ;
        if exact == 0 {
            assert(whole == 0) by {
                lemma_basic_div(0, one() as int);
            }
        }
    } else {
        assert(clamp(value(bits)) == clamped);
    }
}

/// A buffer keeps its count through a conversion: one that was created for
/// `count` samples, all zero, and then had its first `len` places filled is
/// still `count` places long, so it can be released with the count it was
/// created with, and the places the conversion did not reach are still zero.
pub proof fn lemma_buffer_keeps_its_count(
    input: Seq<u32>,
    count: int,
    after: Seq<i16>,
    len: int,
)
    requires
        0 <= len <= count,
        converted(input, filled(count, 0i16), after, len),
    ensures
        after.len() == count,
        forall|i: int| len <= i < count ==> #[trigger] after[i] == 0,
{
}

/// Conversion is a function of the samples alone: two runs over inputs that
/// agree on their first `len` samples fill the first `len` places alike,
/// whatever the output buffers held, and leave equal buffers when they
/// started from equal buffers.
pub proof fn lemma_conversion_deterministic(
    input_a: Seq<u32>,
    before_a: Seq<i16>,
    after_a: Seq<i16>,
    input_b: Seq<u32>,
    before_b: Seq<i16>,
    after_b: Seq<i16>,
    len: int,
)
    requires
        0 <= len <= before_a.len(),
        len <= before_b.len(),
        len <= input_a.len(),
        len <= input_b.len(),
        input_a.subrange(0, len) == input_b.subrange(0, len),
        converted(input_a, before_a, after_a, len),
        converted(input_b, before_b, after_b, len),
    ensures
        after_a.subrange(0, len) == after_b.subrange(0, len),
        before_a == before_b ==> after_a == after_b,
{
    assert forall|i: int| 0 <= i < len implies after_a[i] == after_b[i] by {
        assert(input_a[i] == input_a.subrange(0, len)[i]);
        assert(input_b[i] == input_b.subrange(0, len)[i]);
    }
    assert(after_a.subrange(0, len) =~= after_b.subrange(0, len));
    if before_a == before_b {
        assert(after_a =~= after_b);
    }
}

} // verus!
