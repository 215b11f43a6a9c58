//! IEEE 754 binary32 numbers as `u32` encodings: one sign bit, eight exponent
//! bits, twenty-three fraction bits.

use vstd::prelude::*;
use vstd::arithmetic::mul::{lemma_mul_inequality, lemma_mul_strict_inequality};
use vstd::arithmetic::power2::{
    lemma_pow2_pos, lemma_pow2_strictly_increases, lemma_pow2_unfold, pow2,
};

verus! {

/// The sign bit.
pub const SIGN: u32 = 0x8000_0000;

/// Positive zero.
pub const ZERO: u32 = 0;

/// Positive infinity; every larger magnitude is a NaN.
pub const INFINITY: u32 = 0x7f80_0000;

/// The quiet NaN that this library returns where a result is not a number.
pub const NAN: u32 = 0x7fc0_0000;

/// The binary32 number nearest to π/2.
pub const FRAC_PI_2: u32 = 0x3fc9_0fdb;

/// The binary32 number nearest to π.
pub const PI: u32 = 0x4049_0fdb;

/// The binary32 number nearest to 2π, twice `PI`.
pub const TAU: u32 = 0x40c9_0fdb;

/// The weight of the implicit leading bit of a normal significand.
pub const HIDDEN: u32 = 0x80_0000;

/// Whether the sign bit of `x` is set. Holds of negative numbers, of negative
/// zero and of NaNs that carry the bit.
pub open spec fn negative(x: u32) -> bool {
    x >= SIGN
}

/// The encoding `x` with its sign bit cleared.
pub open spec fn magnitude(x: u32) -> u32 {
    if x >= SIGN {
        (x - SIGN) as u32
    } else {
        x
    }
}

/// Whether `x` encodes a NaN.
pub open spec fn nan(x: u32) -> bool {
    magnitude(x) > INFINITY
}

/// Whether `x` encodes a zero, a subnormal or a normal number.
pub open spec fn finite(x: u32) -> bool {
    magnitude(x) < INFINITY
}

/// The biased exponent field of `x`.
pub open spec fn exponent(x: u32) -> nat {
    (magnitude(x) / HIDDEN) as nat
}

/// The fraction field of `x`.
pub open spec fn fraction(x: u32) -> nat {
    (magnitude(x) % HIDDEN) as nat
}

/// The absolute value of a finite `x`, counted in units of 2^-149, the
/// smallest positive binary32 number. For an infinity it is 2^128 in those
/// units: the number that would follow the largest finite one.
pub open spec fn units(x: u32) -> nat {
    if exponent(x) == 0 {
        fraction(x)
    } else {
        ((HIDDEN + fraction(x)) * pow2((exponent(x) - 1) as nat)) as nat
    }
}

/// The number that a finite `x` encodes, in units of 2^-149.
pub open spec fn value(x: u32) -> int {
    if negative(x) {
        -(units(x) as int)
    } else {
        units(x) as int
    }
}

/// Numeric equality of two encodings: a NaN equals nothing, the two zeros are
/// equal, and any other number equals only itself.
pub open spec fn same(a: u32, b: u32) -> bool {
    &&& !nan(a)
    &&& !nan(b)
    &&& (a == b || (magnitude(a) == 0 && magnitude(b) == 0))
}

/// The magnitude `m` under a set or a cleared sign bit.
pub open spec fn signed(m: u32, minus: bool) -> u32 {
    if minus {
        (m + SIGN) as u32
    } else {
        m
    }
}

/// The encoding with the magnitude of `m` and the sign of `s`.
pub open spec fn signed_as(m: u32, s: u32) -> u32 {
    signed(magnitude(m), negative(s))
}

/// Whether the sign bit of `x` is set.
pub fn is_negative(x: u32) -> (b: bool)
    ensures
        b == negative(x),
{
    x >= SIGN
}

/// The absolute value of `x`: the encoding with the sign bit cleared.
pub fn abs(x: u32) -> (m: u32)
    ensures
        m == magnitude(x),
        !negative(m),
{
    if x >= SIGN {
        x - SIGN
    } else {
        x
    }
}

/// Whether `x` is a NaN.
pub fn is_nan(x: u32) -> (b: bool)
    ensures
        b == nan(x),
{
    abs(x) > INFINITY
}

/// Whether `x` is neither an infinity nor a NaN.
pub fn is_finite(x: u32) -> (b: bool)
    ensures
        b == finite(x),
{
    abs(x) < INFINITY
}

/// The magnitude of `m` under the sign of `s`.
pub fn copy_sign(m: u32, s: u32) -> (r: u32)
    ensures
        r == signed_as(m, s),
        magnitude(r) == magnitude(m),
        negative(r) == negative(s),
{
    if is_negative(s) {
        abs(m) + SIGN
    } else {
        abs(m)
    }
}

/// Numeric equality, as `==` decides it between two binary32 numbers.
pub fn eq(a: u32, b: u32) -> (e: bool)
    ensures
        e == same(a, b),
{
    !is_nan(a) && !is_nan(b) && (a == b || (abs(a) == 0 && abs(b) == 0))
}

/// A larger magnitude encodes a larger absolute value: the encodings of the
/// non-negative numbers are ordered as the numbers are.
pub proof fn units_increase(a: u32, b: u32)
    requires
        magnitude(a) < magnitude(b),
    ensures
        units(a) < units(b),
{
    let ea = exponent(a);
    let eb = exponent(b);
    let fa = fraction(a);
    let fb = fraction(b);
    assert(magnitude(a) == ea * HIDDEN + fa);
    assert(magnitude(b) == eb * HIDDEN + fb);
    assert(ea <= eb);
    if ea == eb {
        if ea > 0 {
            let p = pow2((ea - 1) as nat);
            lemma_pow2_pos((ea - 1) as nat);
            lemma_mul_strict_inequality(HIDDEN + fa, HIDDEN + fb, p as int);
        }
    } else {
        let q = pow2((eb - 1) as nat);
        lemma_pow2_pos((eb - 1) as nat);
        lemma_mul_inequality(1, q as int, HIDDEN as int);
        lemma_mul_inequality(HIDDEN as int, HIDDEN + fb, q as int);
        assert(HIDDEN <= HIDDEN * q <= units(b));
        if ea > 0 {
            let p = pow2((ea - 1) as nat);
            lemma_pow2_pos((ea - 1) as nat);
            lemma_pow2_unfold(ea);
            lemma_mul_strict_inequality(HIDDEN + fa, 2 * HIDDEN, p as int);
            assert(2 * HIDDEN * p == HIDDEN * pow2(ea)) by (nonlinear_arith)
                requires
                    pow2(ea) == 2 * p,
            ;
            if ea < eb - 1 {
                lemma_pow2_strictly_increases(ea, (eb - 1) as nat);
            }
            lemma_mul_inequality(pow2(ea) as int, q as int, HIDDEN as int);
        }
    }
}

/// An encoding is fixed by its sign bit and the absolute value it stands for.
pub proof fn encoding_is_unique(a: u32, b: u32)
    requires
        negative(a) == negative(b),
        units(a) == units(b),
    ensures
        a == b,
{
    if magnitude(a) < magnitude(b) {
        units_increase(a, b);
    }
    if magnitude(b) < magnitude(a) {
        units_increase(b, a);
    }
}

/// Two finite encodings are numerically equal exactly where they stand for
/// the same number.
pub proof fn same_is_equal_value(a: u32, b: u32)
    requires
        finite(a),
        finite(b),
    ensures
        same(a, b) <==> value(a) == value(b),
{
    if magnitude(a) > 0 {
        units_increase(ZERO, a);
    }
    if magnitude(b) > 0 {
        units_increase(ZERO, b);
    }
    if value(a) == value(b) && magnitude(a) > 0 {
        encoding_is_unique(a, b);
    }
}

} // verus!
