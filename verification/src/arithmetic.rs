//! Sums, products and quotients of binary32 numbers, rounded to the nearest
//! number with ties to the even encoding.

use vstd::prelude::*;
use vstd::arithmetic::div_mod::lemma_fundamental_div_mod;
use vstd::arithmetic::power2::{
    lemma2_to64, lemma_pow2_adds, lemma_pow2_pos, lemma_pow2_strictly_increases,
    lemma_pow2_unfold, pow2,
};
use crate::binary32::{
    abs, encoding_is_unique, exponent, finite, fraction, is_finite, is_nan, is_negative,
    magnitude, nan, negative, signed, units, units_increase, value, HIDDEN, INFINITY, NAN, SIGN,
    ZERO,
};
use crate::rounding::{
    bit_length, exact_rounds_to_itself, nearest, nearest_rounds, power_of_two, round_scaled,
    rounded_is_nearest, rounds_to, rounds_to_same_ratio, shifted_rounds_to, units_of_parts,
};

verus! {

/// The product of two binary32 numbers.
///
/// A NaN factor gives `NAN`, and so does an infinity times a zero. Any other
/// product with an infinity is an infinity. The product of two finite numbers
/// is their exact product rounded to the nearest number. The sign bit of a
/// product that is a number is set where the sign bits of the factors differ.
pub open spec fn product(a: u32, b: u32) -> u32 {
    if nan(a) || nan(b) {
        NAN
    } else if !finite(a) || !finite(b) {
        if magnitude(a) == 0 || magnitude(b) == 0 {
            NAN
        } else {
            signed(INFINITY, negative(a) != negative(b))
        }
    } else {
        signed(nearest(units(a) * units(b), pow2(149)), negative(a) != negative(b))
    }
}

/// A product does not depend on the order of its factors.
pub proof fn product_commutes(a: u32, b: u32)
    ensures
        product(a, b) == product(b, a),
{
    assert(units(a) * units(b) == units(b) * units(a)) by (nonlinear_arith);
}

/// The product of two numbers with one sign bit does not carry the sign bit:
/// a square in particular is never negative.
pub proof fn product_of_like_signs(a: u32, b: u32)
    requires
        negative(a) == negative(b),
    ensures
        !negative(product(a, b)),
{
    nearest_rounds(units(a) * units(b), pow2(149));
}

/// The significand and the power of two of a finite magnitude.
pub(crate) fn parts(m: u32) -> (p: (u32, u32))
    requires
        m < INFINITY,
    ensures
        units(m) == p.0 * pow2(p.1 as nat),
        p.0 < 2 * HIDDEN,
        p.1 <= 253,
        p.1 == 0 || p.0 >= HIDDEN,
        m == p.1 * HIDDEN + p.0,
{
    if m < HIDDEN {
        proof {
            lemma2_to64();
        }
        (m, 0)
    } else {
        let e: u32 = m / HIDDEN - 1;
        let sig: u32 = HIDDEN + m % HIDDEN;
        proof {
            assert(exponent(m) == e + 1);
            assert(fraction(m) == sig - HIDDEN);
        }
        (sig, e)
    }
}

/// The product of `a` and `b`, as `*` gives it between two binary32 numbers.
pub fn times(a: u32, b: u32) -> (r: u32)
    ensures
        r == product(a, b),
        negative(a) == negative(b) ==> !negative(r),
{
    if is_nan(a) || is_nan(b) {
        return NAN;
    }
    let ma = abs(a);
    let mb = abs(b);
    let minus = is_negative(a) != is_negative(b);
    if !is_finite(a) || !is_finite(b) {
        if ma == 0 || mb == 0 {
            return NAN;
        }
        return if minus {
            INFINITY + SIGN
        } else {
            INFINITY
        };
    }
    let (sa, ea) = parts(ma);
    let (sb, eb) = parts(mb);
    proof {
        assert(sa * sb < 0x1_0000_0000_0000) by (nonlinear_arith)
            requires
                sa < 0x100_0000,
                sb < 0x100_0000,
        ;
    }
    let p: u64 = sa as u64 * sb as u64;
    let m = round_scaled(p, 0, 1, ea + eb);
    proof {
        lemma_pow2_pos(149);
        lemma_pow2_adds(ea as nat, eb as nat);
        assert(units(a) == units(ma) && units(b) == units(mb));
        assert(units(a) * units(b) == p * pow2((ea + eb) as nat)) by (nonlinear_arith)
            requires
                units(a) == sa * pow2(ea as nat),
                units(b) == sb * pow2(eb as nat),
                p == sa * sb,
                pow2((ea + eb) as nat) == pow2(ea as nat) * pow2(eb as nat),
        ;
        rounded_is_nearest(units(a) * units(b), pow2(149), m);
    }
    if minus {
        m + SIGN
    } else {
        m
    }
}

/// The sum of two binary32 numbers.
///
/// A NaN addend gives `NAN`, and so do two infinities of opposite sign. Any
/// other sum with an infinity is that infinity. The sum of two finite numbers
/// is their exact sum rounded to the nearest number. An exact sum of zero is
/// positive zero, but for two negative zeros, whose sum is negative zero.
pub open spec fn sum(a: u32, b: u32) -> u32 {
    if nan(a) || nan(b) {
        NAN
    } else if !finite(a) {
        if !finite(b) && negative(a) != negative(b) {
            NAN
        } else {
            a
        }
    } else if !finite(b) {
        b
    } else {
        finite_sum(a, b)
    }
}

/// The sum of two finite numbers: their exact sum, rounded.
pub open spec fn finite_sum(a: u32, b: u32) -> u32 {
    let exact = value(a) + value(b);
    if exact == 0 {
        if negative(a) && negative(b) {
            SIGN
        } else {
            ZERO
        }
    } else if exact > 0 {
        nearest(exact as nat, 1)
    } else {
        signed(nearest((-exact) as nat, 1), true)
    }
}

/// A sum does not depend on the order of its addends.
pub proof fn sum_commutes(a: u32, b: u32)
    ensures
        sum(a, b) == sum(b, a),
{
}

/// The sum of two numbers without the sign bit does not carry it.
pub proof fn sum_of_non_negatives(a: u32, b: u32)
    requires
        !negative(a),
        !negative(b),
    ensures
        !negative(sum(a, b)),
{
    nearest_rounds((value(a) + value(b)) as nat, 1);
}

/// Two finite numbers of one sign add up in magnitude, under that sign.
proof fn sum_of_like_signs(x: u32, y: u32, m: u32)
    requires
        finite(x),
        finite(y),
        negative(x) == negative(y),
        units(x) + units(y) > 0,
        rounds_to(units(x) + units(y), 1, m),
    ensures
        finite_sum(x, y) == signed(m, negative(x)),
        finite_sum(y, x) == signed(m, negative(x)),
{
    rounded_is_nearest(units(x) + units(y), 1, m);
}

/// Of two finite numbers of opposite sign the smaller magnitude is taken off
/// the larger, under the sign of the larger.
proof fn sum_of_unlike_signs(x: u32, y: u32, m: u32)
    requires
        finite(x),
        finite(y),
        negative(x) != negative(y),
        units(x) > units(y),
        rounds_to((units(x) - units(y)) as nat, 1, m),
    ensures
        finite_sum(x, y) == signed(m, negative(x)),
        finite_sum(y, x) == signed(m, negative(x)),
{
    rounded_is_nearest((units(x) - units(y)) as nat, 1, m);
}

/// Beside a number over 2^25 times as large, an addend is lost in rounding.
///
/// Here `big` is a normal magnitude with significand `sx` and power `ex`, and
/// the small addend is `sy · 2^ey` units with `ey` at least 26 below `ex`.
proof fn far_addend_is_lost(big: u32, sx: nat, ex: nat, sy: nat, ey: nat, same: bool)
    requires
        big == ex * HIDDEN + sx,
        HIDDEN <= sx < 2 * HIDDEN,
        ex <= 253,
        ey + 26 <= ex,
        sy < 2 * HIDDEN,
    ensures
        units(big) == sx * pow2(ex),
        units(big) > 0,
        same ==> rounds_to((units(big) + sy * pow2(ey)) as nat, 1, big),
        !same ==> units(big) > sy * pow2(ey) && rounds_to(
            (units(big) - sy * pow2(ey)) as nat,
            1,
            big,
        ),
{
    let d = (ex - ey) as nat;
    let scale_d = pow2(d) as int;
    let scale_y = pow2(ey) as int;
    let k = pow2(149) as int;
    let t = ey + 149;
    units_of_parts(ex, sx);
    lemma2_to64();
    lemma_pow2_adds(d, ey);
    lemma_pow2_adds(ey, 149);
    lemma_pow2_pos(ey);
    lemma_pow2_pos(d);
    lemma_pow2_pos(149);
    if d > 26 {
        lemma_pow2_strictly_increases(26, d);
    }
    assert(scale_d >= 0x400_0000);
    let ub = units(big) as int;
    assert(ub == sx * scale_d * scale_y) by (nonlinear_arith)
        requires
            ub == sx * pow2(ex),
            pow2(ex) == scale_d * scale_y,
    ;
    assert(ub > 0) by (nonlinear_arith)
        requires
            ub == sx * scale_d * scale_y,
            sx > 0,
            scale_d > 0,
            scale_y > 0,
    ;
    if sy == 0 {
        assert(sy * pow2(ey) == 0);
        assert(ub * 1 == ub);
        exact_rounds_to_itself(1, big);
    } else if same {
        let p = (sx * scale_d + sy) as nat;
        shifted_rounds_to(p, 1, t, ex, d, sx, sy, false);
        assert(p * pow2(t) == (ub + sy * scale_y) * k) by (nonlinear_arith)
            requires
                p == sx * scale_d + sy,
                pow2(t) == scale_y * k,
                ub == sx * scale_d * scale_y,
        ;
        assert(ub + sy * scale_y >= 0) by (nonlinear_arith)
            requires
                ub >= 0,
                sy >= 0,
                scale_y >= 0,
        ;
        rounds_to_same_ratio(
            (p * pow2(t)) as nat,
            pow2(149),
            (ub + sy * scale_y) as nat,
            1,
            big,
        );
    } else {
        let exact = ub - sy * scale_y;
        assert(exact > 0) by (nonlinear_arith)
            requires
                exact == sx * scale_d * scale_y - sy * scale_y,
                sx >= 1,
                scale_d > sy,
                scale_y > 0,
        ;
        if sx > HIDDEN {
            let q = (sx - 1) as nat;
            let rem = (scale_d - sy) as nat;
            let p = (q * scale_d + rem) as nat;
            shifted_rounds_to(p, 1, t, ex, d, q, rem, true);
            assert(p * pow2(t) == exact * k) by (nonlinear_arith)
                requires
                    p == (sx - 1) * scale_d + (scale_d - sy),
                    pow2(t) == scale_y * k,
                    exact == sx * scale_d * scale_y - sy * scale_y,
            ;
        } else {
            // The number below a power of two is half as far away as the one
            // above: the sum is written one exponent lower.
            let half_d = pow2((d - 1) as nat) as int;
            lemma_pow2_unfold(d);
            let q = (2 * HIDDEN - 1) as nat;
            let rem = (half_d - sy) as nat;
            let p = (q * half_d + rem) as nat;
            assert(p == q * pow2((d - 1) as nat) + rem);
            shifted_rounds_to(p, 1, t, (ex - 1) as nat, (d - 1) as nat, q, rem, true);
            assert((ex - 1) * HIDDEN + q + 1 == big) by (nonlinear_arith)
                requires
                    big == ex * HIDDEN + sx,
                    sx == HIDDEN,
                    q == 2 * HIDDEN - 1,
            ;
            assert(p * pow2(t) == exact * k) by (nonlinear_arith)
                requires
                    p == (2 * sx - 1) * half_d + (half_d - sy),
                    scale_d == 2 * half_d,
                    pow2(t) == scale_y * k,
                    exact == sx * scale_d * scale_y - sy * scale_y,
            ;
        }
        rounds_to_same_ratio((exact * k) as nat, pow2(149), exact as nat, 1, big);
    }
}

/// The sum of `a` and `b`, as `+` gives it between two binary32 numbers.
pub fn plus(a: u32, b: u32) -> (r: u32)
    ensures
        r == sum(a, b),
        !negative(a) && !negative(b) ==> !negative(r),
{
    if is_nan(a) || is_nan(b) {
        return NAN;
    }
    if !is_finite(a) {
        if !is_finite(b) && is_negative(a) != is_negative(b) {
            return NAN;
        }
        return a;
    }
    if !is_finite(b) {
        return b;
    }
    // The exact sum takes its sign from the addend that is larger in magnitude.
    if abs(a) >= abs(b) {
        plus_ordered(a, b)
    } else {
        plus_ordered(b, a)
    }
}

/// The sum of two finite numbers, the first at least as large in magnitude
/// as the second.
fn plus_ordered(x: u32, y: u32) -> (r: u32)
    requires
        finite(x),
        finite(y),
        magnitude(x) >= magnitude(y),
    ensures
        r == finite_sum(x, y),
        r == finite_sum(y, x),
        !negative(x) ==> !negative(r),
{
    let mx = abs(x);
    let my = abs(y);
    let same = is_negative(x) == is_negative(y);
    let (sx, ex) = parts(mx);
    let (sy, ey) = parts(my);
    assert(ex >= ey);
    assert(units(x) == units(mx) && units(y) == units(my));
    if ex - ey > 25 {
        proof {
            far_addend_is_lost(mx, sx as nat, ex as nat, sy as nat, ey as nat, same);
            if same {
                sum_of_like_signs(x, y, mx);
            } else {
                sum_of_unlike_signs(x, y, mx);
            }
        }
        return x;
    }
    let shift: u32 = ex - ey;
    let scale = power_of_two(shift);
    proof {
        aligned_is_exact(sx as nat, ex as nat, ey as nat);
        if mx > my {
            units_increase(my, mx);
        }
        assert(units(x) >= units(y));
    }
    let aligned: u64 = sx as u64 * scale;
    let total: u64 = if same {
        aligned + sy as u64
    } else {
        proof {
            assert(aligned >= sy) by (nonlinear_arith)
                requires
                    aligned * pow2(ey as nat) >= sy * pow2(ey as nat),
                    pow2(ey as nat) > 0,
            ;
        }
        aligned - sy as u64
    };
    let ghost ux = units(x) as int;
    let ghost uy = units(y) as int;
    let ghost n: int = if same {
        ux + uy
    } else {
        ux - uy
    };
    proof {
        assert(total * pow2(ey as nat) == n) by (nonlinear_arith)
            requires
                total == if same { aligned + sy } else { aligned - sy },
                n == if same { ux + uy } else { ux - uy },
                ux == aligned * pow2(ey as nat),
                uy == sy * pow2(ey as nat),
        ;
    }
    if total == 0 {
        proof {
            assert(n == 0);
            if same {
                encoding_is_unique(x, if negative(x) { SIGN } else { ZERO });
            }
        }
        return if same {
            x
        } else {
            ZERO
        };
    }
    let m = round_scaled(total, 0, 1, ey + 149);
    proof {
        lemma_pow2_adds(ey as nat, 149);
        lemma_pow2_pos(ey as nat);
        lemma_pow2_pos(149);
        assert(n > 0) by (nonlinear_arith)
            requires
                n == total * pow2(ey as nat),
                total > 0,
                pow2(ey as nat) > 0,
        ;
        assert(total * pow2((ey + 149) as nat) == n * pow2(149)) by (nonlinear_arith)
            requires
                n == total * pow2(ey as nat),
                pow2((ey + 149) as nat) == pow2(ey as nat) * pow2(149),
        ;
        rounds_to_same_ratio((n * pow2(149)) as nat, pow2(149), n as nat, 1, m);
        if same {
            sum_of_like_signs(x, y, m);
        } else {
            sum_of_unlike_signs(x, y, m);
        }
    }
    if is_negative(x) {
        m + SIGN
    } else {
        m
    }
}

/// A significand shifted up by the difference of two exponents stands, at
/// the lower exponent, for the same number.
proof fn aligned_is_exact(sx: nat, ex: nat, ey: nat)
    requires
        sx < 2 * HIDDEN,
        ey <= ex <= ey + 25,
    ensures
        sx * pow2((ex - ey) as nat) < 0x2_0000_0000_0000,
        sx * pow2(ex) == sx * pow2((ex - ey) as nat) * pow2(ey),
        pow2(ey) > 0,
{
    let shift = (ex - ey) as nat;
    lemma2_to64();
    if shift < 25 {
        lemma_pow2_strictly_increases(shift, 25);
    }
    assert(sx * pow2(shift) < 0x2_0000_0000_0000) by (nonlinear_arith)
        requires
            sx < 0x100_0000,
            pow2(shift) <= 0x200_0000,
    ;
    lemma_pow2_adds(shift, ey);
    lemma_pow2_pos(ey);
    assert(sx * pow2(ex) == sx * pow2(shift) * pow2(ey)) by (nonlinear_arith)
        requires
            pow2(ex) == pow2(shift) * pow2(ey),
    ;
}

/// The quotient of two binary32 numbers.
///
/// A NaN gives `NAN`, and so do an infinity over an infinity and a zero over
/// a zero. An infinity over a finite number and a number other than zero over
/// a zero are infinities; a finite number over an infinity is a zero. The
/// quotient of two other numbers is their exact quotient rounded to the
/// nearest number. The sign bit of a quotient that is a number is set where
/// the sign bits of the two differ.
pub open spec fn quotient(a: u32, b: u32) -> u32 {
    let minus = negative(a) != negative(b);
    if nan(a) || nan(b) {
        NAN
    } else if !finite(a) {
        if !finite(b) {
            NAN
        } else {
            signed(INFINITY, minus)
        }
    } else if !finite(b) {
        signed(ZERO, minus)
    } else if magnitude(b) == 0 {
        if magnitude(a) == 0 {
            NAN
        } else {
            signed(INFINITY, minus)
        }
    } else {
        signed(nearest(units(a) * pow2(149), units(b)), minus)
    }
}

/// The significand of a finite magnitude other than zero, brought up to 24
/// bits, and the number of bits it was raised by.
fn normalized(sig: u32) -> (p: (u32, u32))
    requires
        0 < sig < 2 * HIDDEN,
    ensures
        p.0 == sig * pow2(p.1 as nat),
        HIDDEN <= p.0 < 2 * HIDDEN,
        p.1 <= 23,
        sig >= HIDDEN ==> p.1 == 0,
{
    let len = bit_length(sig as u64);
    proof {
        lemma2_to64();
        if len > 24 {
            lemma_pow2_strictly_increases(24, (len - 1) as nat);
        }
        if len < 24 {
            lemma_pow2_strictly_increases(len as nat, 24);
        }
    }
    let lift: u32 = 24 - len;
    let scale = power_of_two(lift);
    proof {
        lemma_pow2_adds(len as nat, lift as nat);
        lemma_pow2_adds((len - 1) as nat, lift as nat);
        assert(sig * scale < 0x100_0000 && sig * scale >= 0x80_0000) by (nonlinear_arith)
            requires
                pow2((len - 1) as nat) <= sig < pow2(len as nat),
                scale == pow2(lift as nat),
                pow2(len as nat) * pow2(lift as nat) == 0x100_0000,
                pow2((len - 1) as nat) * pow2(lift as nat) == 0x80_0000,
                scale > 0,
        ;
    }
    ((sig as u64 * scale) as u32, lift)
}

/// A quotient under 2^-150 units rounds to zero.
proof fn tiny_quotient_vanishes(sa: nat, ea: nat, la: nat, sb: nat, eb: nat, lb: nat)
    requires
        sa * pow2(la) < 2 * HIDDEN,
        sb * pow2(lb) >= HIDDEN,
        ea + lb + 272 < la + eb,
    ensures
        rounds_to(sa * pow2(ea) * pow2(149), sb * pow2(eb), 0),
{
    lemma2_to64();
    assert(units(0) == 0 && units(1) == 1);
    let n = sa * pow2(ea) * pow2(149);
    let d = sb * pow2(eb);
    // Both sides are brought to the common power 2^(la + lb).
    let gap = (la + eb - ea - lb - 150) as nat;
    lemma_pow2_adds(ea + 150, la + lb + gap);
    lemma_pow2_adds(ea + 150, lb);
    lemma_pow2_adds(ea, 149);
    lemma_pow2_adds(ea + 149, 1);
    lemma_pow2_adds(eb, la);
    lemma_pow2_adds(la, lb);
    lemma_pow2_adds(ea + 150 + lb, gap);
    lemma_pow2_adds(la, eb);
    lemma_pow2_adds(24, (ea + 150 + lb) as nat);
    lemma_pow2_adds(23, (la + eb) as nat);
    lemma_pow2_pos(la);
    lemma_pow2_pos(lb);
    lemma_pow2_pos(ea + 150 + lb);
    lemma_pow2_pos(la + eb);
    if ea + 150 + lb + 24 < la + eb + 23 {
        lemma_pow2_strictly_increases((ea + 150 + lb + 24) as nat, (la + eb + 23) as nat);
    }
    let left = (2 * n) * (pow2(la) * pow2(lb));
    let right = d * (pow2(la) * pow2(lb));
    assert(left == (sa * pow2(la)) * pow2(ea + 150 + lb)) by (nonlinear_arith)
        requires
            left == (2 * (sa * pow2(ea) * pow2(149))) * (pow2(la) * pow2(lb)),
            pow2(ea + 150 + lb) == pow2(ea + 150) * pow2(lb),
            pow2(ea + 150) == pow2(ea + 149) * 2,
            pow2(ea + 149) == pow2(ea) * pow2(149),
    ;
    assert(right == (sb * pow2(lb)) * pow2(la + eb)) by (nonlinear_arith)
        requires
            right == (sb * pow2(eb)) * (pow2(la) * pow2(lb)),
            pow2(la + eb) == pow2(la) * pow2(eb),
    ;
    assert(left < pow2(24) * pow2(ea + 150 + lb)) by (nonlinear_arith)
        requires
            left == (sa * pow2(la)) * pow2(ea + 150 + lb),
            sa * pow2(la) < pow2(24),
            pow2(ea + 150 + lb) > 0,
    ;
    assert(right >= pow2(23) * pow2(la + eb)) by (nonlinear_arith)
        requires
            right == (sb * pow2(lb)) * pow2(la + eb),
            sb * pow2(lb) >= pow2(23),
            pow2(la + eb) > 0,
    ;
    assert(left <= right);
    assert(2 * n <= d) by (nonlinear_arith)
        requires
            left == (2 * n) * (pow2(la) * pow2(lb)),
            right == d * (pow2(la) * pow2(lb)),
            left <= right,
            pow2(la) > 0,
            pow2(lb) > 0,
    ;
    assert((units(0) + units(1)) * d == d) by (nonlinear_arith)
        requires
            units(0) == 0,
            units(1) == 1,
    ;
}

/// The quotient of `a` by `b`, as `/` gives it between two binary32 numbers.
pub fn over(a: u32, b: u32) -> (r: u32)
    ensures
        r == quotient(a, b),
{
    if is_nan(a) || is_nan(b) {
        return NAN;
    }
    let ma = abs(a);
    let mb = abs(b);
    let sign: u32 = if is_negative(a) != is_negative(b) {
        SIGN
    } else {
        0
    };
    if !is_finite(a) {
        if !is_finite(b) {
            return NAN;
        }
        return INFINITY + sign;
    }
    if !is_finite(b) {
        return sign;
    }
    if mb == 0 {
        if ma == 0 {
            return NAN;
        }
        return INFINITY + sign;
    }
    let (sa, ea) = parts(ma);
    let (sb, eb) = parts(mb);
    assert(units(a) == units(ma) && units(b) == units(mb));
    proof {
        lemma_pow2_pos(149);
        lemma_pow2_pos(eb as nat);
        if sb == 0 {
            assert(mb == 0);
        }
        assert(units(b) > 0) by (nonlinear_arith)
            requires
                units(b) == sb * pow2(eb as nat),
                sb > 0,
                pow2(eb as nat) > 0,
        ;
    }
    if sa == 0 {
        proof {
            assert(units(a) * pow2(149) == 0) by (nonlinear_arith)
                requires
                    units(a) == sa * pow2(ea as nat),
                    sa == 0,
            ;
            assert(units(0) == 0);
            assert(units(0) * units(b) == 0) by (nonlinear_arith)
                requires
                    units(0) == 0,
            ;
            exact_rounds_to_itself(units(b), 0);
            rounded_is_nearest(0, units(b), 0);
        }
        return sign;
    }
    let (na, la) = normalized(sa);
    let (nb, lb) = normalized(sb);
    if ea + lb + 272 < la + eb {
        proof {
            tiny_quotient_vanishes(
                sa as nat,
                ea as nat,
                la as nat,
                sb as nat,
                eb as nat,
                lb as nat,
            );
            rounded_is_nearest(units(a) * pow2(149), units(b), 0);
        }
        return sign;
    }
    let t: u32 = ea + lb + 272 - la - eb;
    proof {
        assert(na * 0x400_0000 < 0x4_0000_0000_0000) by (nonlinear_arith)
            requires
                na < 0x100_0000,
        ;
    }
    let dividend: u64 = na as u64 * 0x400_0000;
    let q: u64 = dividend / nb as u64;
    let rest: u64 = dividend % nb as u64;
    proof {
        lemma_fundamental_div_mod(dividend as int, nb as int);
        assert(q >= 0x200_0000 && q < 0x4_0000_0000_0000) by (nonlinear_arith)
            requires
                dividend == nb * q + rest,
                0 <= rest < nb,
                dividend >= 0x80_0000 * 0x400_0000,
                dividend < 0x4_0000_0000_0000,
                0x80_0000 <= nb < 0x100_0000,
        ;
    }
    let m = round_scaled(q, rest, nb as u64, t);
    proof {
        // The fraction that was rounded and the quotient asked for are one
        // ratio.
        let n1 = ((q * nb + rest) * pow2(t as nat)) as nat;
        let d1 = (nb * pow2(149)) as nat;
        let n2 = units(a) * pow2(149);
        let d2 = units(b);
        lemma2_to64();
        lemma_pow2_adds(26, t as nat);
        lemma_pow2_adds(la as nat, (26 + t) as nat);
        lemma_pow2_adds((la + 26 + t) as nat, eb as nat);
        lemma_pow2_adds(ea as nat, 149);
        lemma_pow2_adds((ea + 149) as nat, lb as nat);
        lemma_pow2_adds((ea + 149 + lb) as nat, 149);
        assert(la + 26 + t + eb == ea + 149 + lb + 149);
        assert(d1 > 0) by (nonlinear_arith)
            requires
                d1 == nb * pow2(149),
                nb > 0,
                pow2(149) > 0,
        ;
        let whole = pow2((ea + 149 + lb + 149) as nat);
        assert(n1 * d2 == sa * sb * whole) by (nonlinear_arith)
            requires
                n1 == (q * nb + rest) * pow2(t as nat),
                dividend == nb * q + rest,
                dividend == na * 0x400_0000,
                na == sa * pow2(la as nat),
                d2 == sb * pow2(eb as nat),
                pow2(26) == 0x400_0000,
                pow2((26 + t) as nat) == pow2(26) * pow2(t as nat),
                pow2((la + 26 + t) as nat) == pow2(la as nat) * pow2((26 + t) as nat),
                whole == pow2((la + 26 + t) as nat) * pow2(eb as nat),
        ;
        assert(n2 * d1 == sa * sb * whole) by (nonlinear_arith)
            requires
                n2 == units(a) * pow2(149),
                units(a) == sa * pow2(ea as nat),
                d1 == nb * pow2(149),
                nb == sb * pow2(lb as nat),
                pow2((ea + 149) as nat) == pow2(ea as nat) * pow2(149),
                pow2((ea + 149 + lb) as nat) == pow2((ea + 149) as nat) * pow2(lb as nat),
                whole == pow2((ea + 149 + lb) as nat) * pow2(149),
        ;
        rounds_to_same_ratio(n1, d1, n2, d2, m);
        rounded_is_nearest(n2, d2, m);
    }
    m + sign
}

} // verus!
