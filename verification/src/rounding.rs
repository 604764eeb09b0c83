//! Rounding to single precision, on magnitudes counted in units of `2^-149`.
//!
//! A single-precision number keeps 24 significant bits. A magnitude of more
//! bits than that lies between two representable neighbours, a `spacing`
//! apart, and is rounded to the nearer one, to the one with the even
//! significand when it lies halfway.

use vstd::prelude::*;
use vstd::arithmetic::power2::{pow2, lemma_pow2_adds, lemma_pow2_pos, lemma_pow2_unfold, lemma2_to64};
use vstd::arithmetic::div_mod::{
    lemma_div_multiples_vanish_quotient, lemma_fundamental_div_mod, lemma_mod_bound,
    lemma_truncate_middle,
};
use vstd::arithmetic::mul::{lemma_mul_is_associative, lemma_mul_is_commutative};

verus! {

/// Number of bits needed to write `n` in binary; 0 for 0.
pub open spec fn bit_length(n: nat) -> nat
    decreases n,
{
    if n == 0 {
        0
    } else {
        1 + bit_length(n / 2)
    }
}

/// Distance between neighbouring single-precision numbers around the
/// magnitude `n`: 1 while `n` fits in 24 bits, and twice as much for every
/// bit beyond.
pub open spec fn spacing(n: nat) -> nat {
    if bit_length(n) <= 24 {
        1
    } else {
        pow2((bit_length(n) - 24) as nat)
    }
}

/// The multiple of `step` nearest to `n`; of two equally near ones, the even
/// multiple.
pub open spec fn nearest_multiple(n: nat, step: nat) -> nat {
    let below = n / step;
    let rest = n % step;
    if 2 * rest > step || (2 * rest == step && below % 2 == 1) {
        (below + 1) * step
    } else {
        below * step
    }
}

/// `n` rounded to single precision, to nearest and ties to even.
pub open spec fn round_ties_even(n: nat) -> nat {
    nearest_multiple(n, spacing(n))
}

/// Doubling a positive number lengthens it by one bit.
proof fn lemma_bit_length_double(n: nat)
    requires
        n > 0,
    ensures
        bit_length(2 * n) == bit_length(n) + 1,
{
    assert((2 * n) / 2 == n);
}

/// Multiplying a positive number by `2^shift` lengthens it by `shift` bits.
pub proof fn lemma_bit_length_scaled(n: nat, shift: nat)
    requires
        n > 0,
    ensures
        bit_length(n * pow2(shift)) == bit_length(n) + shift,
    decreases shift,
{
    if shift == 0 {
        lemma2_to64();
        assert(n * pow2(0) == n);
    } else {
        let prev = (shift - 1) as nat;
        lemma_bit_length_scaled(n, prev);
        lemma_pow2_unfold(shift);
        lemma_pow2_pos(prev);
        assert(n * pow2(shift) == 2 * (n * pow2(prev))) by (nonlinear_arith)
            requires
                pow2(shift) == 2 * pow2(prev),
        ;
        assert(n * pow2(prev) > 0) by (nonlinear_arith)
            requires
                n > 0,
                pow2(prev) > 0,
        ;
        lemma_bit_length_double(n * pow2(prev));
    }
}

/// A number in `2^(len-1) .. 2^len` is `len` bits long.
pub proof fn lemma_bit_length_between(n: nat, len: nat)
    requires
        len >= 1,
        pow2((len - 1) as nat) <= n < pow2(len),
    ensures
        bit_length(n) == len,
    decreases len,
{
    lemma2_to64();
    if len == 1 {
        assert(n == 1);
        assert(n / 2 == 0);
        assert(bit_length(n) == 1 + bit_length(0));
    } else {
        lemma_pow2_unfold(len);
        lemma_pow2_unfold((len - 1) as nat);
        lemma_pow2_pos((len - 2) as nat);
        lemma_bit_length_between(n / 2, (len - 1) as nat);
    }
}

/// A number below `2^len` is at most `len` bits long.
pub proof fn lemma_bit_length_at_most(n: nat, len: nat)
    requires
        n < pow2(len),
    ensures
        bit_length(n) <= len,
    decreases len,
{
    lemma2_to64();
    if n == 0 {
    } else if len == 0 {
    } else {
        lemma_pow2_unfold(len);
        lemma_bit_length_at_most(n / 2, (len - 1) as nat);
    }
}

/// Scaling a number and the step by a common positive factor scales the
/// nearest multiple by that factor.
pub proof fn lemma_nearest_multiple_scaled(n: nat, step: nat, factor: nat)
    requires
        step > 0,
        factor > 0,
    ensures
        nearest_multiple(n * factor, step * factor) == nearest_multiple(n, step) * factor,
{
    let f = factor as int;
    let below = n / step;
    let rest = n % step;
    lemma_div_multiples_vanish_quotient(f, n as int, step as int);
    lemma_truncate_middle(n as int, f, step as int);
    lemma_mul_is_commutative(f, n as int);
    lemma_mul_is_commutative(f, step as int);
    lemma_mul_is_commutative(f, rest as int);
    assert((n * factor) / (step * factor) == below);
    assert((n * factor) % (step * factor) == rest * factor);
    assert(2 * (rest * factor) > step * factor <==> 2 * rest > step) by (nonlinear_arith)
        requires
            factor > 0,
    ;
    assert(2 * (rest * factor) == step * factor <==> 2 * rest == step) by (nonlinear_arith)
        requires
            factor > 0,
    ;
    lemma_mul_is_associative(below as int, step as int, f);
    lemma_mul_is_associative((below + 1) as int, step as int, f);
}

/// A number that fits in 24 bits is representable: rounding leaves it as it is.
pub proof fn lemma_round_exact(n: nat)
    requires
        bit_length(n) <= 24,
    ensures
        round_ties_even(n) == n,
{
}

/// Rounding commutes with scaling by a power of two, for a number of 24 bits
/// or more.
pub proof fn lemma_round_scaled(n: nat, shift: nat)
    requires
        bit_length(n) >= 24,
    ensures
        round_ties_even(n * pow2(shift)) == round_ties_even(n) * pow2(shift),
{
    let extra = (bit_length(n) - 24) as nat;
    lemma2_to64();
    lemma_bit_length_scaled(n, shift);
    lemma_pow2_adds(extra, shift);
    lemma_pow2_pos(extra);
    lemma_pow2_pos(shift);
    assert(spacing(n) == pow2(extra));
    assert(spacing(n * pow2(shift)) == pow2(extra + shift));
    lemma_nearest_multiple_scaled(n, pow2(extra), pow2(shift));
}

/// Rounding moves a number by half a spacing at most.
pub proof fn lemma_round_is_near(n: nat)
    ensures
        2 * n - spacing(n) <= 2 * round_ties_even(n) <= 2 * n + spacing(n),
{
    let step = spacing(n);
    if bit_length(n) > 24 {
        lemma_pow2_pos((bit_length(n) - 24) as nat);
    }
    lemma_fundamental_div_mod(n as int, step as int);
    lemma_mod_bound(n as int, step as int);
    let below = n / step;
    assert((below + 1) * step == below * step + step) by (nonlinear_arith);
    assert(step * below == below * step) by (nonlinear_arith);
}

/// Rounding never steps over a number that is representable at that
/// magnitude: where `grid` is a whole number of spacings, the rounded number
/// stays between the two multiples of `grid` that enclose `n`.
pub proof fn lemma_round_stays_between_multiples(n: nat, grid: nat)
    requires
        grid > 0,
        grid % spacing(n) == 0,
    ensures
        (n / grid) * grid <= round_ties_even(n) <= (n / grid + 1) * grid,
{
    let step = spacing(n);
    if bit_length(n) > 24 {
        lemma_pow2_pos((bit_length(n) - 24) as nat);
    }
    let per = grid / step;
    let whole = n / grid;
    let below = n / step;
    lemma_fundamental_div_mod(grid as int, step as int);
    lemma_fundamental_div_mod(n as int, grid as int);
    lemma_mod_bound(n as int, grid as int);
    lemma_fundamental_div_mod(n as int, step as int);
    lemma_mod_bound(n as int, step as int);
    assert(grid == per * step) by (nonlinear_arith)
        requires
            grid == step * per + 0,
    ;
    // whole * per spacings fit under n, and (whole + 1) * per do not.
    assert(whole * per <= below && below + 1 <= (whole + 1) * per) by (nonlinear_arith)
        requires
            step > 0,
            grid == per * step,
            n == grid * whole + n % grid,
            0 <= n % grid < grid,
            n == step * below + n % step,
            0 <= n % step < step,
    ;
    assert(whole * grid <= below * step && (below + 1) * step <= (whole + 1) * grid)
        by (nonlinear_arith)
        requires
            step > 0,
            grid == per * step,
            whole * per <= below,
            below + 1 <= (whole + 1) * per,
    ;
    assert(below * step <= (below + 1) * step) by (nonlinear_arith)
        requires
            step > 0,
    ;
}

} // verus!
