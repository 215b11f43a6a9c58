//! Square roots of binary32 numbers, rounded to the nearest number.

use vstd::prelude::*;
use vstd::arithmetic::power2::{
    lemma2_to64, lemma2_to64_rest, lemma_pow2_adds, lemma_pow2_pos,
    lemma_pow2_strictly_increases, lemma_pow2_unfold, pow2,
};
use crate::arithmetic::parts;
use crate::binary32::{
    abs, is_nan, is_negative, magnitude, nan, negative, units, units_increase, HIDDEN,
    INFINITY, NAN,
};
use crate::rounding::{bit_length, power_of_two, units_of_parts};

verus! {

/// Whether `m` is the magnitude nearest to the square root of `n` units.
///
/// In units of 2^-149 the root of `n` units is the root of `n · 2^149`. It
/// lies between two midpoints exactly where four times its square lies
/// between the squares of the sums of the neighbours to either side. A root
/// never falls on a midpoint, so nothing is said of ties.
pub open spec fn root_rounds_to(n: nat, m: u32) -> bool {
    &&& 0 < m < INFINITY
    &&& {
        let lower = units((m - 1) as u32) + units(m);
        lower * lower <= 4 * n * pow2(149)
    }
    &&& {
        let upper = units(m) + units((m + 1) as u32);
        4 * n * pow2(149) < upper * upper
    }
}

/// The magnitude nearest to the square root of `n` units.
pub open spec fn nearest_root(n: nat) -> u32 {
    choose|m: u32| root_rounds_to(n, m)
}

/// The square root of a binary32 number.
///
/// The root of a NaN and of a negative number is `NAN`. The root of a zero is
/// that zero, negative zero included, and the root of infinity is infinity.
/// The root of any other number is its exact root rounded to the nearest
/// number.
pub open spec fn root(x: u32) -> u32 {
    if nan(x) {
        NAN
    } else if magnitude(x) == 0 {
        x
    } else if negative(x) {
        NAN
    } else if x == INFINITY {
        INFINITY
    } else {
        nearest_root(units(x))
    }
}

/// Whether the root of `n` units lies at or above the lower end of what `m`
/// owns.
spec fn root_reaches(n: nat, m: u32) -> bool {
    let lower = units((m - 1) as u32) + units(m);
    lower * lower <= 4 * n * pow2(149)
}

/// The last magnitude from `m` on whose lower end the root of `n` units
/// reaches.
proof fn root_climb(n: nat, m: u32) -> (r: u32)
    requires
        0 < m < INFINITY,
        root_reaches(n, m),
        n < pow2(277),
    ensures
        root_rounds_to(n, r),
    decreases INFINITY - m,
{
    if m + 1 < INFINITY {
        if root_reaches(n, (m + 1) as u32) {
            root_climb(n, (m + 1) as u32)
        } else {
            m
        }
    } else {
        // Below infinity the root of a finite number always stops.
        units_of_parts(253, (2 * HIDDEN) as nat);
        assert(INFINITY == 253 * HIDDEN + 2 * HIDDEN);
        lemma2_to64();
        lemma_pow2_adds(24, 253);
        lemma_pow2_adds(277, 149);
        lemma_pow2_adds(277, 277);
        lemma_pow2_adds(426, 2);
        lemma_pow2_pos(149);
        lemma_pow2_strictly_increases(428, 554);
        let top = units(INFINITY) as int;
        let upper = units(m) + top;
        assert(top == pow2(277));
        assert(4 * n * pow2(149) < pow2(428)) by (nonlinear_arith)
            requires
                n < pow2(277),
                pow2(426) == pow2(277) * pow2(149),
                pow2(428) == pow2(426) * 4,
                pow2(149) > 0,
        ;
        assert(upper * upper >= pow2(554)) by (nonlinear_arith)
            requires
                upper >= top,
                top >= 0,
                top * top == pow2(554),
        ;
        m
    }
}

/// The root of every finite number above zero rounds to some magnitude: the
/// nearest one is defined for all of them.
pub proof fn nearest_root_rounds(n: nat)
    requires
        0 < n < pow2(277),
    ensures
        root_rounds_to(n, nearest_root(n)),
{
    lemma_pow2_pos(149);
    assert(units(0) == 0 && units(1) == 1);
    assert(1 <= 4 * n * pow2(149)) by (nonlinear_arith)
        requires
            n >= 1,
            pow2(149) >= 1,
    ;
    let m = root_climb(n, 1);
}

/// The root of a number without the sign bit does not carry it.
pub proof fn root_of_non_negative(x: u32)
    requires
        !negative(x),
    ensures
        !negative(root(x)),
{
    if 0 < x < INFINITY {
        units_increase(0, x);
        units_increase(x, INFINITY);
        units_of_parts(253, (2 * HIDDEN) as nat);
        assert(INFINITY == 253 * HIDDEN + 2 * HIDDEN);
        lemma2_to64();
        lemma_pow2_adds(24, 253);
        assert(units(0) == 0);
        nearest_root_rounds(units(x));
    }
}

/// A root rounds to one magnitude only.
pub proof fn root_rounding_is_unique(n: nat, m1: u32, m2: u32)
    requires
        root_rounds_to(n, m1),
        root_rounds_to(n, m2),
    ensures
        m1 == m2,
{
    if m1 < m2 {
        root_skips_larger(n, m1, m2);
    }
    if m2 < m1 {
        root_skips_larger(n, m2, m1);
    }
}

/// A root that rounds to one magnitude rounds to no larger one.
proof fn root_skips_larger(n: nat, m1: u32, m2: u32)
    requires
        root_rounds_to(n, m1),
        m1 < m2,
    ensures
        !root_rounds_to(n, m2),
{
    if m2 < INFINITY {
        let succ = (m1 + 1) as u32;
        let pred = (m2 - 1) as u32;
        if m1 < pred {
            units_increase(m1, pred);
            units_increase(succ, m2);
        }
        let upper = (units(m1) + units(succ)) as int;
        let lower = (units(pred) + units(m2)) as int;
        assert(upper <= lower);
        assert(upper * upper <= lower * lower) by (nonlinear_arith)
            requires
                0 <= upper <= lower,
        ;
    }
}

/// The largest integer whose square is at most `n`.
fn integer_root(n: u64) -> (q: u64)
    requires
        n < 0x4_0000_0000_0000,
    ensures
        q * q <= n < (q + 1) * (q + 1),
        q < 0x200_0000,
{
    let mut q: u64 = 0;
    let mut width: u64 = 0x200_0000;
    let mut i: u32 = 25;
    proof {
        lemma2_to64();
        assert(0x200_0000 * 0x200_0000 == 0x4_0000_0000_0000) by (nonlinear_arith);
    }
    while i > 0
        invariant
            i <= 25,
            width == pow2(i as nat),
            q + width <= 0x200_0000,
            q * q <= n < (q + width) * (q + width),
        decreases i,
    {
        proof {
            lemma_pow2_unfold(i as nat);
            assert((q + width / 2) * (q + width / 2) < 0x4_0000_0000_0000) by (nonlinear_arith)
                requires
                    0 <= q + width / 2 < 0x200_0000,
            ;
        }
        let half = width / 2;
        if (q + half) * (q + half) <= n {
            q = q + half;
        }
        width = half;
        i = i - 1;
    }
    proof {
        lemma2_to64();
    }
    q
}

/// The root of `N · 4^g` units squared is `q · 2^g` units and a little: it
/// rounds to the upper 24 bits of the 25-bit `q`, and up where the last bit
/// of `q` is set.
proof fn halved_root_rounds(n: nat, radicand: nat, q: nat, g: nat)
    requires
        n * pow2(149) == radicand * pow2(2 * g),
        q * q <= radicand < (q + 1) * (q + 1),
        2 * HIDDEN <= q < 4 * HIDDEN,
        g <= 250,
    ensures
        (g + 1) * HIDDEN + q / 2 + q % 2 < INFINITY,
        root_rounds_to(n, ((g + 1) * HIDDEN + q / 2 + q % 2) as u32),
{
    let e = g + 1;
    let sig: nat = q / 2 + q % 2;
    units_of_parts(e, sig);
    let m = (e * HIDDEN + sig) as u32;
    assert(e * HIDDEN + sig < INFINITY) by (nonlinear_arith)
        requires
            e <= 251,
            sig <= 2 * HIDDEN,
            HIDDEN == 0x80_0000,
            INFINITY == 0x7f80_0000,
    ;
    let scale_g = pow2(g) as int;
    let scale_e = pow2(e) as int;
    lemma_pow2_unfold(e);
    lemma_pow2_adds(g, g);
    lemma_pow2_pos(g);
    let four_n = 4 * n * pow2(149);
    let r = radicand as int;
    assert(four_n == 4 * r * (scale_g * scale_g)) by (nonlinear_arith)
        requires
            four_n == 4 * n * pow2(149),
            n * pow2(149) == r * pow2(2 * g),
            pow2(2 * g) == scale_g * scale_g,
    ;
    let um = units(m) as int;
    assert(um == sig * scale_e);
    // Above.
    let succ = (m + 1) as u32;
    let us = units(succ) as int;
    let top: int = if sig < 2 * HIDDEN {
        (2 * sig + 1) as int
    } else {
        (2 * sig + 2) as int
    };
    if sig < 2 * HIDDEN {
        units_of_parts(e, sig + 1);
        assert(um + us == top * scale_e) by (nonlinear_arith)
            requires
                um == sig * scale_e,
                us == (sig + 1) * scale_e,
                top == 2 * sig + 1,
        ;
    } else {
        assert(m == (e + 1) * HIDDEN + HIDDEN) by (nonlinear_arith)
            requires
                m == e * HIDDEN + sig,
                sig == 2 * HIDDEN,
        ;
        units_of_parts(e + 1, (HIDDEN + 1) as nat);
        lemma_pow2_unfold(e + 1);
        assert(succ == (e + 1) * HIDDEN + (HIDDEN + 1));
        assert(um + us == top * scale_e) by (nonlinear_arith)
            requires
                um == sig * scale_e,
                us == (HIDDEN + 1) * (2 * scale_e),
                sig == 2 * HIDDEN,
                top == 2 * sig + 2,
        ;
    }
    assert(four_n < (um + us) * (um + us)) by (nonlinear_arith)
        requires
            four_n == 4 * r * (scale_g * scale_g),
            um + us == top * scale_e,
            scale_e == 2 * scale_g,
            scale_g > 0,
            r < (q + 1) * (q + 1),
            top >= q + 1,
            q >= 0,
    ;
    // Below.
    let pred = (m - 1) as u32;
    let up = units(pred) as int;
    if sig > HIDDEN {
        units_of_parts(e, (sig - 1) as nat);
        assert(pred == e * HIDDEN + (sig - 1));
        assert((up + um) * (up + um) <= four_n) by (nonlinear_arith)
            requires
                four_n == 4 * r * (scale_g * scale_g),
                up == (sig - 1) * scale_e,
                um == sig * scale_e,
                scale_e == 2 * scale_g,
                scale_g > 0,
                q * q <= r,
                0 <= 2 * sig - 1 <= q,
        ;
    } else {
        // The predecessor is the last number of the exponent below.
        assert(q == 2 * HIDDEN);
        units_of_parts(g, (2 * HIDDEN - 1) as nat);
        assert(pred == g * HIDDEN + (2 * HIDDEN - 1)) by (nonlinear_arith)
            requires
                pred == (g + 1) * HIDDEN + sig - 1,
                sig == HIDDEN,
        ;
        assert((up + um) * (up + um) <= four_n) by (nonlinear_arith)
            requires
                four_n == 4 * r * (scale_g * scale_g),
                up == (2 * HIDDEN - 1) * scale_g,
                um == HIDDEN * scale_e,
                scale_e == 2 * scale_g,
                scale_g > 0,
                q * q <= r,
                q == 2 * HIDDEN,
                HIDDEN == 0x80_0000,
        ;
    }
}

/// The square root of `x`, rounded to the nearest binary32 number.
pub fn sqrt(x: u32) -> (r: u32)
    ensures
        r == root(x),
        !negative(x) ==> !negative(r),
{
    if is_nan(x) {
        return NAN;
    }
    let m = abs(x);
    if m == 0 {
        return x;
    }
    if is_negative(x) {
        return NAN;
    }
    if m == INFINITY {
        return INFINITY;
    }
    let (sig, e) = parts(m);
    proof {
        if sig == 0 {
            assert(m == 0);
        }
        lemma2_to64();
        lemma2_to64_rest();
    }
    // Scale the significand to 49 or 50 bits, leaving an even power of two.
    let len = bit_length(sig as u64);
    let lift: u32 = if (e + 149 - (49 - len)) % 2 == 0 {
        49 - len
    } else {
        50 - len
    };
    let g: u32 = (e + 149 - lift) / 2;
    let scale = power_of_two(lift);
    proof {
        lemma_pow2_adds(len as nat, lift as nat);
        lemma_pow2_adds((len - 1) as nat, lift as nat);
        if len + lift < 50 {
            lemma_pow2_strictly_increases((len + lift) as nat, 50);
        }
        if len - 1 + lift > 48 {
            lemma_pow2_strictly_increases(48, (len - 1 + lift) as nat);
        }
        assert(sig * scale < 0x4_0000_0000_0000) by (nonlinear_arith)
            requires
                sig < pow2(len as nat),
                scale == pow2(lift as nat),
                pow2(len as nat) * pow2(lift as nat) <= 0x4_0000_0000_0000,
                scale > 0,
        ;
        assert(sig * scale >= 0x1_0000_0000_0000) by (nonlinear_arith)
            requires
                sig >= pow2((len - 1) as nat),
                scale == pow2(lift as nat),
                pow2((len - 1) as nat) * pow2(lift as nat) >= 0x1_0000_0000_0000,
                scale > 0,
        ;
    }
    let radicand: u64 = sig as u64 * scale;
    let q = integer_root(radicand);
    proof {
        assert(q >= 0x100_0000) by (nonlinear_arith)
            requires
                radicand < (q + 1) * (q + 1),
                radicand >= 0x1_0000_0000_0000,
                q >= 0,
        ;
        lemma_pow2_adds(lift as nat, (2 * g) as nat);
        lemma_pow2_adds(e as nat, 149);
        assert(units(x) * pow2(149) == radicand * pow2((2 * g) as nat)) by (nonlinear_arith)
            requires
                units(x) == sig * pow2(e as nat),
                radicand == sig * scale,
                scale == pow2(lift as nat),
                pow2((e + 149) as nat) == pow2(e as nat) * pow2(149),
                pow2((e + 149) as nat) == pow2(lift as nat) * pow2((2 * g) as nat),
        ;
        halved_root_rounds(units(x), radicand as nat, q as nat, g as nat);
        let found = ((g + 1) * HIDDEN + q / 2 + q % 2) as u32;
        root_rounding_is_unique(units(x), found, nearest_root(units(x)));
    }
    (g + 1) * HIDDEN + (q / 2 + q % 2) as u32
}

} // verus!
