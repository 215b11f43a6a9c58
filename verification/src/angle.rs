//! Reduction of an angle modulo a full turn.

use vstd::prelude::*;
use vstd::arithmetic::div_mod::{
    lemma_fundamental_div_mod_converse, lemma_mul_mod_noop_right, lemma_small_mod,
    lemma_truncate_middle,
};
use vstd::arithmetic::power2::{
    lemma2_to64, lemma_pow2_adds, lemma_pow2_pos, lemma_pow2_strictly_increases,
    lemma_pow2_unfold, pow2,
};
use crate::binary32::{
    abs, encoding_is_unique, exponent, finite, fraction, is_finite, is_negative, magnitude,
    negative, units, units_increase, HIDDEN, NAN, SIGN, TAU,
};

verus! {

/// The significand of `TAU`, with its leading bit.
pub const TAU_SIGNIFICAND: u32 = 0xc9_0fdb;

/// The exponent field of `TAU`.
pub const TAU_EXPONENT: u32 = 129;

/// Whether `r` is the remainder of the angle `x` after whole turns of `TAU`
/// are taken away towards zero.
///
/// The remainder of a finite angle is exact: no rounding takes part. It keeps
/// the sign of the angle, also where it is zero, and its absolute value is
/// that of the angle modulo `TAU`. An infinity or a NaN leaves `NAN`.
pub open spec fn reduced(x: u32, r: u32) -> bool {
    if finite(x) {
        &&& finite(r)
        &&& negative(r) == negative(x)
        &&& units(r) == units(x) % units(TAU)
    } else {
        r == NAN
    }
}

/// `TAU` stands for its significand times 2^128 units.
pub proof fn units_of_tau()
    ensures
        units(TAU) == TAU_SIGNIFICAND * pow2(128),
        units(TAU) > 0,
{
    assert(exponent(TAU) == 129);
    assert(fraction(TAU) == 0x49_0fdb);
    lemma_pow2_pos(128);
    assert(TAU_SIGNIFICAND * pow2(128) > 0) by (nonlinear_arith)
        requires
            pow2(128) > 0,
    ;
}

/// An angle has one remainder only.
pub proof fn reduced_is_unique(x: u32, r1: u32, r2: u32)
    requires
        reduced(x, r1),
        reduced(x, r2),
    ensures
        r1 == r2,
{
    if finite(x) {
        encoding_is_unique(r1, r2);
    }
}

/// The remainder of a finite angle lies within one turn of zero.
pub proof fn reduced_is_within_a_turn(x: u32, r: u32)
    requires
        finite(x),
        reduced(x, r),
    ensures
        magnitude(r) < TAU,
{
    units_of_tau();
    assert(units(r) < units(TAU)) by (nonlinear_arith)
        requires
            units(r) == units(x) % units(TAU),
            units(TAU) > 0,
    ;
    if magnitude(r) > TAU {
        units_increase(TAU, r);
    }
}

/// An angle within one turn of zero is its own remainder.
pub proof fn reduced_keeps_small(x: u32)
    requires
        magnitude(x) < TAU,
    ensures
        reduced(x, x),
{
    units_increase(x, TAU);
    lemma_small_mod(units(x), units(TAU));
}

/// The remainder of a finite angle is its own remainder: reducing twice
/// changes nothing.
pub proof fn reduction_is_idempotent(x: u32, r: u32)
    requires
        finite(x),
        reduced(x, r),
    ensures
        reduced(r, r),
{
    reduced_is_within_a_turn(x, r);
    reduced_keeps_small(r);
}

/// The remainder of `x` after whole turns of `TAU`, as `%` gives it between
/// two binary32 numbers.
pub fn reduce(x: u32) -> (r: u32)
    ensures
        reduced(x, r),
{
    if !is_finite(x) {
        return NAN;
    }
    let m = abs(x);
    if m < TAU {
        proof {
            reduced_keeps_small(x);
        }
        return x;
    }
    let e: u32 = m / HIDDEN;
    let significand: u32 = HIDDEN + m % HIDDEN;
    let ghost doublings: nat = (e - TAU_EXPONENT) as nat;
    let mut rest: u32 = significand % TAU_SIGNIFICAND;
    let mut k: u32 = 0;
    proof {
        lemma2_to64();
        assert(significand * pow2(0) == significand);
    }
    while k < e - TAU_EXPONENT
        invariant
            TAU_EXPONENT <= e <= 254,
            k <= e - TAU_EXPONENT,
            rest < TAU_SIGNIFICAND,
            rest == (significand * pow2(k as nat)) % (TAU_SIGNIFICAND as int),
        decreases e - TAU_EXPONENT - k,
    {
        proof {
            let y = significand * pow2(k as nat);
            lemma_pow2_unfold((k + 1) as nat);
            lemma_mul_mod_noop_right(2, y as int, TAU_SIGNIFICAND as int);
            assert(significand * pow2((k + 1) as nat) == 2 * y) by (nonlinear_arith)
                requires
                    pow2((k + 1) as nat) == 2 * pow2(k as nat),
                    y == significand * pow2(k as nat),
            ;
        }
        rest = (2 * rest) % TAU_SIGNIFICAND;
        k = k + 1;
    }
    let ghost whole: nat = rest as nat;
    proof {
        // The absolute value of `x` and that of `TAU` share the factor 2^128.
        let y = significand * pow2(doublings);
        lemma_pow2_adds(doublings, 128);
        lemma_pow2_pos(doublings);
        lemma_pow2_pos(128);
        units_of_tau();
        assert(exponent(x) == e);
        assert(units(x) == significand * pow2((e - 1) as nat));
        assert(units(x) == pow2(128) * y) by (nonlinear_arith)
            requires
                units(x) == significand * pow2((e - 1) as nat),
                pow2((e - 1) as nat) == pow2(doublings) * pow2(128),
                y == significand * pow2(doublings),
        ;
        assert(y >= 0) by (nonlinear_arith)
            requires
                y == significand * pow2(doublings),
        ;
        lemma_truncate_middle(y as int, pow2(128) as int, TAU_SIGNIFICAND as int);
        assert(units(TAU) == pow2(128) * TAU_SIGNIFICAND) by (nonlinear_arith)
            requires
                units(TAU) == TAU_SIGNIFICAND * pow2(128),
        ;
        assert(units(x) % units(TAU) == pow2(128) * whole);
    }
    let sign: u32 = if is_negative(x) { SIGN } else { 0 };
    if rest == 0 {
        proof {
            assert(pow2(128) * whole == 0) by (nonlinear_arith)
                requires
                    whole == 0,
            ;
        }
        return sign;
    }
    // Bring the leading bit of the remainder to the place of the hidden bit.
    let mut q: u32 = 128;
    while rest < HIDDEN
        invariant
            105 <= q <= 128,
            0 < rest < 2 * HIDDEN,
            rest >= pow2((128 - q) as nat),
            rest * pow2(q as nat) == pow2(128) * whole,
        decreases q,
    {
        proof {
            lemma2_to64();
            if q == 105 {
                assert(pow2(23) == HIDDEN);
            } else if q < 128 {
                lemma_pow2_strictly_increases((128 - q) as nat, 23);
            }
            assert(q > 105);
            lemma_pow2_unfold(q as nat);
            lemma_pow2_unfold((128 - (q - 1)) as nat);
            assert((2 * rest) * pow2((q - 1) as nat) == rest * pow2(q as nat)) by (nonlinear_arith)
                requires
                    pow2(q as nat) == 2 * pow2((q - 1) as nat),
            ;
        }
        rest = 2 * rest;
        q = q - 1;
    }
    let r: u32 = sign + (q * HIDDEN + rest);
    proof {
        let mag = q * HIDDEN + rest;
        assert(magnitude(r) == mag);
        lemma_fundamental_div_mod_converse(mag as int, HIDDEN as int, q + 1, rest - HIDDEN);
        assert(exponent(r) == q + 1);
        assert(fraction(r) == rest - HIDDEN);
        assert(units(r) == rest * pow2(q as nat));
    }
    r
}

} // verus!
