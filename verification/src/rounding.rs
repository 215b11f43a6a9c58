//! Rounding of an exact magnitude to the nearest binary32 number, ties to the
//! even encoding.

use vstd::prelude::*;
use vstd::arithmetic::div_mod::{lemma_fundamental_div_mod, lemma_fundamental_div_mod_converse};
use vstd::arithmetic::power2::{
    lemma2_to64, lemma2_to64_rest, lemma_pow2_adds, lemma_pow2_pos,
    lemma_pow2_strictly_increases, lemma_pow2_unfold, pow2,
};
use crate::binary32::{exponent, fraction, magnitude, units, units_increase, HIDDEN, INFINITY};

verus! {

/// Whether the magnitude of `n / d` units rounds to the magnitude `m`.
///
/// Each magnitude up to `INFINITY` owns the numbers between the midpoint
/// towards its predecessor and the midpoint towards its successor. A midpoint
/// itself belongs to the neighbour with the even encoding. `INFINITY` stands
/// here for 2^128, the number that would follow the largest finite one, and
/// owns everything from its lower midpoint on.
pub open spec fn rounds_to(n: nat, d: nat, m: u32) -> bool {
    &&& m <= INFINITY
    &&& (m < INFINITY ==> {
        let upper = (units(m) + units((m + 1) as u32)) * d;
        if m % 2 == 0 {
            2 * n <= upper
        } else {
            2 * n < upper
        }
    })
    &&& (m > 0 ==> {
        let lower = (units((m - 1) as u32) + units(m)) * d;
        if m % 2 == 0 {
            2 * n >= lower
        } else {
            2 * n > lower
        }
    })
}

/// The magnitude nearest to `n / d` units.
pub open spec fn nearest(n: nat, d: nat) -> u32 {
    choose|m: u32| rounds_to(n, d, m)
}

/// Whether `n / d` units lies at or above the lower end of what `m` owns.
spec fn reaches(n: nat, d: nat, m: u32) -> bool {
    m > 0 ==> {
        let lower = (units((m - 1) as u32) + units(m)) * d;
        if m % 2 == 0 {
            2 * n >= lower
        } else {
            2 * n > lower
        }
    }
}

/// The last magnitude from `m` on whose lower end `n / d` units reaches.
proof fn climb(n: nat, d: nat, m: u32) -> (r: u32)
    requires
        m <= INFINITY,
        reaches(n, d, m),
    ensures
        rounds_to(n, d, r),
    decreases INFINITY - m,
{
    if m == INFINITY {
        m
    } else if reaches(n, d, (m + 1) as u32) {
        climb(n, d, (m + 1) as u32)
    } else {
        m
    }
}

/// Every number rounds to some magnitude: the nearest one is defined for all.
pub proof fn nearest_rounds(n: nat, d: nat)
    ensures
        rounds_to(n, d, nearest(n, d)),
{
    let m = climb(n, d, 0);
}

/// A number rounds to one magnitude only.
pub proof fn rounding_is_unique(n: nat, d: nat, m1: u32, m2: u32)
    requires
        d > 0,
        rounds_to(n, d, m1),
        rounds_to(n, d, m2),
    ensures
        m1 == m2,
{
    if m1 < m2 {
        rounding_skips_larger(n, d, m1, m2);
    }
    if m2 < m1 {
        rounding_skips_larger(n, d, m2, m1);
    }
}

/// A number that rounds to one magnitude rounds to no larger one.
proof fn rounding_skips_larger(n: nat, d: nat, m1: u32, m2: u32)
    requires
        d > 0,
        rounds_to(n, d, m1),
        m1 < m2,
    ensures
        !rounds_to(n, d, m2),
{
    if m2 <= INFINITY {
        let succ = (m1 + 1) as u32;
        let pred = (m2 - 1) as u32;
        if m1 < pred {
            units_increase(m1, pred);
            units_increase(succ, m2);
        }
        let upper = units(m1) + units(succ);
        let lower = units(pred) + units(m2);
        assert(upper <= lower);
        assert(upper * d <= lower * d) by (nonlinear_arith)
            requires
                upper <= lower,
        ;
        if m1 < pred {
            assert(upper < lower);
            assert(upper * d < lower * d) by (nonlinear_arith)
                requires
                    upper < lower,
                    d > 0,
            ;
        }
    }
}

/// What a number rounds to is the nearest magnitude.
pub proof fn rounded_is_nearest(n: nat, d: nat, m: u32)
    requires
        d > 0,
        rounds_to(n, d, m),
    ensures
        m == nearest(n, d),
{
    rounding_is_unique(n, d, m, nearest(n, d));
}

/// The encoding with significand `sig` at the power `e` stands for
/// `sig · 2^e` units. A significand of 2^24 carries into the next power.
pub proof fn units_of_parts(e: nat, sig: nat)
    requires
        e <= 253,
        sig <= 2 * HIDDEN,
        e == 0 || sig >= HIDDEN,
    ensures
        e * HIDDEN + sig <= INFINITY,
        units((e * HIDDEN + sig) as u32) == sig * pow2(e),
{
    let enc = (e * HIDDEN + sig) as u32;
    assert(e * HIDDEN + sig <= INFINITY) by (nonlinear_arith)
        requires
            e <= 253,
            sig <= 2 * HIDDEN,
            HIDDEN == 0x80_0000,
            INFINITY == 0x7f80_0000,
    ;
    assert(magnitude(enc) == enc);
    lemma2_to64();
    if sig < HIDDEN {
        assert(enc == sig);
        assert(sig * pow2(0) == sig);
    } else if sig < 2 * HIDDEN {
        lemma_fundamental_div_mod_converse(enc as int, HIDDEN as int, (e + 1) as int, sig - HIDDEN);
        assert(exponent(enc) == e + 1);
        assert(fraction(enc) == sig - HIDDEN);
    } else {
        lemma_fundamental_div_mod_converse(enc as int, HIDDEN as int, (e + 2) as int, 0);
        assert(exponent(enc) == e + 2);
        assert(fraction(enc) == 0);
        lemma_pow2_unfold(e + 1);
        assert(HIDDEN * pow2(e + 1) == sig * pow2(e)) by (nonlinear_arith)
            requires
                pow2(e + 1) == 2 * pow2(e),
                sig == 2 * HIDDEN,
        ;
    }
}

/// A number that an encoding stands for exactly rounds to that encoding.
pub proof fn exact_rounds_to_itself(d: nat, m: u32)
    requires
        d > 0,
        m <= INFINITY,
    ensures
        rounds_to(units(m) * d, d, m),
{
    let u = units(m) as int;
    let scale = d as int;
    if m < INFINITY {
        let succ = (m + 1) as u32;
        units_increase(m, succ);
        let v = units(succ) as int;
        assert(2 * (u * scale) < (u + v) * scale) by (nonlinear_arith)
            requires
                u < v,
                scale > 0,
        ;
    }
    if m > 0 {
        let pred = (m - 1) as u32;
        units_increase(pred, m);
        let w = units(pred) as int;
        assert(2 * (u * scale) > (w + u) * scale) by (nonlinear_arith)
            requires
                w < u,
                scale > 0,
        ;
    }
}

/// Rounding depends on the ratio alone: two fractions of one value round to
/// the same magnitude.
pub proof fn rounds_to_same_ratio(n1: nat, d1: nat, n2: nat, d2: nat, m: u32)
    requires
        d1 > 0,
        d2 > 0,
        n1 * d2 == n2 * d1,
        rounds_to(n1, d1, m),
    ensures
        rounds_to(n2, d2, m),
{
    let um = units(m) as int;
    if m < INFINITY {
        let span = um + units((m + 1) as u32);
        if m % 2 == 0 {
            assert(2 * n2 <= span * d2) by (nonlinear_arith)
                requires
                    2 * n1 <= span * d1,
                    n1 * d2 == n2 * d1,
                    d1 > 0,
                    d2 > 0,
            ;
        } else {
            assert(2 * n2 < span * d2) by (nonlinear_arith)
                requires
                    2 * n1 < span * d1,
                    n1 * d2 == n2 * d1,
                    d1 > 0,
                    d2 > 0,
            ;
        }
    }
    if m > 0 {
        let span = units((m - 1) as u32) + um;
        if m % 2 == 0 {
            assert(2 * n2 >= span * d2) by (nonlinear_arith)
                requires
                    2 * n1 >= span * d1,
                    n1 * d2 == n2 * d1,
                    d1 > 0,
                    d2 > 0,
            ;
        } else {
            assert(2 * n2 > span * d2) by (nonlinear_arith)
                requires
                    2 * n1 > span * d1,
                    n1 * d2 == n2 * d1,
                    d1 > 0,
                    d2 > 0,
            ;
        }
    }
}

/// Rounding after a shift to the right. The number `(num / den) · 2^t / 2^149`
/// is `(q + rem / (2^d · den)) · 2^e` units: it rounds to the significand `q`,
/// or to `q + 1` where the part shifted out is over one half, or is one half
/// and `q` is odd.
pub proof fn shifted_rounds_to(
    num: nat,
    den: nat,
    t: nat,
    e: nat,
    d: nat,
    q: nat,
    rem: nat,
    up: bool,
)
    requires
        d > 0,
        den > 0,
        e + 149 == t + d,
        num == q * (pow2(d) * den) + rem,
        rem < pow2(d) * den,
        up == (2 * rem > pow2(d) * den || (2 * rem == pow2(d) * den && q % 2 == 1)),
        e <= 253,
        q < 2 * HIDDEN,
        e == 0 || q >= HIDDEN,
    ensures
        e * HIDDEN + q + 1 <= INFINITY,
        rounds_to(
            num * pow2(t),
            den * pow2(149),
            (e * HIDDEN + q + if up { 1nat } else { 0nat }) as u32,
        ),
{
    let sig: nat = q + if up { 1nat } else { 0nat };
    units_of_parts(e, sig);
    let m = (e * HIDDEN + sig) as u32;
    let n = (num * pow2(t)) as int;
    let scale_t = pow2(t) as int;
    // One step of the significand, seen from the numerator.
    let step = (pow2(d) * den) as int;
    let scale_e = pow2(e) as int;
    let k = (den * pow2(149)) as int;
    let um = units(m) as int;
    lemma_pow2_adds(e, 149);
    lemma_pow2_adds(t, d);
    lemma_pow2_pos(t);
    lemma_pow2_pos(d);
    lemma_pow2_pos(e);
    assert(scale_e * k == scale_t * step) by (nonlinear_arith)
        requires
            scale_e * pow2(149) == scale_t * pow2(d),
            k == den * pow2(149),
            step == pow2(d) * den,
    ;
    assert(step > 0) by (nonlinear_arith)
        requires
            step == pow2(d) * den,
            pow2(d) > 0,
            den > 0,
    ;
    assert((e * HIDDEN) % 2 == 0) by (nonlinear_arith)
        requires
            HIDDEN == 0x80_0000,
    ;
    assert(m % 2 == sig % 2);
    assert(um == sig * scale_e);
    if m < INFINITY {
        let succ = (m + 1) as u32;
        let us = units(succ) as int;
        if sig < 2 * HIDDEN {
            units_of_parts(e, sig + 1);
            assert(us == (sig + 1) * scale_e);
            assert((um + us) * k == (2 * sig + 1) * step * scale_t) by (nonlinear_arith)
                requires
                    um == sig * scale_e,
                    us == (sig + 1) * scale_e,
                    scale_e * k == scale_t * step,
            ;
            if up {
                assert(2 * n < (2 * sig + 1) * step * scale_t) by (nonlinear_arith)
                    requires
                        n == num * scale_t,
                        num == q * step + rem,
                        sig == q + 1,
                        rem < step,
                        scale_t > 0,
                ;
            } else {
                assert(2 * n <= (2 * sig + 1) * step * scale_t) by (nonlinear_arith)
                    requires
                        n == num * scale_t,
                        num == q * step + rem,
                        sig == q,
                        2 * rem <= step,
                        scale_t > 0,
                ;
                if q % 2 == 1 {
                    assert(2 * n < (2 * sig + 1) * step * scale_t) by (nonlinear_arith)
                        requires
                            n == num * scale_t,
                            num == q * step + rem,
                            sig == q,
                            2 * rem < step,
                            scale_t > 0,
                    ;
                }
            }
        } else {
            assert(e <= 252);
            assert(m == (e + 1) * HIDDEN + HIDDEN) by (nonlinear_arith)
                requires
                    m == e * HIDDEN + sig,
                    sig == 2 * HIDDEN,
            ;
            units_of_parts(e + 1, (HIDDEN + 1) as nat);
            lemma_pow2_unfold(e + 1);
            assert(succ == (e + 1) * HIDDEN + (HIDDEN + 1));
            assert(us == (HIDDEN + 1) * pow2(e + 1));
            assert((um + us) * k == (2 * sig + 2) * step * scale_t) by (nonlinear_arith)
                requires
                    um == sig * scale_e,
                    us == (HIDDEN + 1) * (2 * scale_e),
                    sig == 2 * HIDDEN,
                    scale_e * k == scale_t * step,
            ;
            assert(2 * n < (2 * sig + 2) * step * scale_t) by (nonlinear_arith)
                requires
                    n == num * scale_t,
                    num == q * step + rem,
                    sig == q + 1,
                    rem < step,
                    scale_t > 0,
            ;
        }
    }
    if m > 0 {
        let pred = (m - 1) as u32;
        let up_ = units(pred) as int;
        if e == 0 || sig > HIDDEN {
            units_of_parts(e, (sig - 1) as nat);
            assert(pred == e * HIDDEN + (sig - 1));
            assert(up_ == (sig - 1) * scale_e);
            assert((up_ + um) * k == (2 * sig - 1) * step * scale_t) by (nonlinear_arith)
                requires
                    um == sig * scale_e,
                    up_ == (sig - 1) * scale_e,
                    scale_e * k == scale_t * step,
            ;
            if up {
                assert(2 * n >= (2 * sig - 1) * step * scale_t) by (nonlinear_arith)
                    requires
                        n == num * scale_t,
                        num == q * step + rem,
                        sig == q + 1,
                        2 * rem >= step,
                        scale_t > 0,
                ;
                if sig % 2 == 1 {
                    assert(2 * n > (2 * sig - 1) * step * scale_t) by (nonlinear_arith)
                        requires
                            n == num * scale_t,
                            num == q * step + rem,
                            sig == q + 1,
                            2 * rem > step,
                            scale_t > 0,
                    ;
                }
            } else {
                assert(2 * n > (2 * sig - 1) * step * scale_t) by (nonlinear_arith)
                    requires
                        n == num * scale_t,
                        num == q * step + rem,
                        sig == q,
                        rem >= 0,
                        step > 0,
                        scale_t > 0,
                ;
            }
        } else {
            // The predecessor is the last number of the exponent below.
            assert(sig == HIDDEN && q == HIDDEN && !up);
            units_of_parts((e - 1) as nat, (2 * HIDDEN - 1) as nat);
            lemma_pow2_unfold(e);
            let half_e = pow2((e - 1) as nat) as int;
            assert(pred == (e - 1) * HIDDEN + (2 * HIDDEN - 1)) by (nonlinear_arith)
                requires
                    pred == e * HIDDEN + sig - 1,
                    sig == HIDDEN,
            ;
            assert(up_ == (2 * HIDDEN - 1) * half_e);
            assert(2 * ((up_ + um) * k) == (4 * sig - 1) * step * scale_t) by (nonlinear_arith)
                requires
                    um == sig * scale_e,
                    up_ == (2 * sig - 1) * half_e,
                    scale_e == 2 * half_e,
                    scale_e * k == scale_t * step,
            ;
            assert(4 * n > (4 * sig - 1) * step * scale_t) by (nonlinear_arith)
                requires
                    n == num * scale_t,
                    num == q * step + rem,
                    sig == q,
                    rem >= 0,
                    step > 0,
                    scale_t > 0,
            ;
        }
    }
}

/// A number of at least 2^128 rounds to `INFINITY`.
pub proof fn large_rounds_to_infinity(n: nat, d: nat)
    requires
        n >= pow2(277) * d,
    ensures
        rounds_to(n, d, INFINITY),
{
    let pred = (INFINITY - 1) as u32;
    units_increase(pred, INFINITY);
    units_of_parts(253, (2 * HIDDEN) as nat);
    assert(INFINITY == 253 * HIDDEN + 2 * HIDDEN);
    lemma2_to64();
    lemma_pow2_adds(24, 253);
    let top = units(INFINITY) as int;
    let below = units(pred) as int;
    assert(top == pow2(277));
    assert((below + top) * d <= 2 * (top * d)) by (nonlinear_arith)
        requires
            below < top,
            d >= 0,
    ;
}

/// Two to the power `e`.
pub(crate) fn power_of_two(e: u32) -> (r: u64)
    requires
        e <= 63,
    ensures
        r == pow2(e as nat),
{
    let mut r: u64 = 1;
    let mut k: u32 = 0;
    proof {
        lemma2_to64();
    }
    while k < e
        invariant
            k <= e <= 63,
            r == pow2(k as nat),
        decreases e - k,
    {
        proof {
            lemma_pow2_unfold((k + 1) as nat);
            if k + 1 < 63 {
                lemma_pow2_strictly_increases((k + 1) as nat, 63);
            }
            lemma2_to64_rest();
        }
        r = 2 * r;
        k = k + 1;
    }
    r
}

/// The number of bits of `p` up to its leading one.
pub(crate) fn bit_length(p: u64) -> (len: u32)
    requires
        0 < p < 0x4_0000_0000_0000,
    ensures
        1 <= len <= 50,
        pow2((len - 1) as nat) <= p < pow2(len as nat),
{
    let mut len: u32 = 1;
    let mut bound: u64 = 2;
    proof {
        lemma2_to64();
    }
    while bound <= p
        invariant
            1 <= len <= 50,
            p < 0x4_0000_0000_0000,
            bound == pow2(len as nat),
            pow2((len - 1) as nat) <= p,
        decreases 50 - len,
    {
        proof {
            lemma2_to64_rest();
            if len >= 50 {
                if len > 50 {
                    lemma_pow2_strictly_increases(50, len as nat);
                }
                assert(false);
            }
            lemma_pow2_unfold((len + 1) as nat);
            if len + 1 < 50 {
                lemma_pow2_strictly_increases((len + 1) as nat, 50);
            }
        }
        bound = 2 * bound;
        len = len + 1;
    }
    len
}

/// The magnitude nearest to `(p + rest / den) · 2^t / 2^149` units.
///
/// A fraction `rest / den` beside `p` is taken only where `p` has more bits
/// than a significand, so that the fraction is always shifted out.
pub(crate) fn round_scaled(p: u64, rest: u64, den: u64, t: u32) -> (m: u32)
    requires
        p < 0x4_0000_0000_0000,
        t <= 1000,
        rest < den < 0x100_0000,
        rest == 0 || p >= 0x200_0000,
    ensures
        rounds_to(
            ((p * den + rest) * pow2(t as nat)) as nat,
            (den * pow2(149)) as nat,
            m,
        ),
{
    let ghost num: nat = (p * den + rest) as nat;
    let ghost n: nat = (num * pow2(t as nat)) as nat;
    let ghost k: nat = (den * pow2(149)) as nat;
    proof {
        lemma2_to64();
        lemma2_to64_rest();
        lemma_pow2_pos(t as nat);
        lemma_pow2_pos(149);
        assert(p * den + rest >= 0) by (nonlinear_arith)
            requires
                p >= 0,
                den >= 0,
                rest >= 0,
        ;
        assert(num * pow2(t as nat) >= 0) by (nonlinear_arith)
            requires
                num >= 0,
                pow2(t as nat) >= 0,
        ;
        assert(den * pow2(149) > 0) by (nonlinear_arith)
            requires
                den > 0,
                pow2(149) > 0,
        ;
    }
    if p == 0 {
        proof {
            assert(num == 0) by (nonlinear_arith)
                requires
                    num == p * den + rest,
                    p == 0,
                    rest == 0,
            ;
            assert(n == 0) by (nonlinear_arith)
                requires
                    n == num * pow2(t as nat),
                    num == 0,
            ;
            assert(units(0) == 0);
            assert(units(0) * k == 0) by (nonlinear_arith)
                requires
                    units(0) == 0,
            ;
            exact_rounds_to_itself(k, 0);
        }
        return 0;
    }
    let len = bit_length(p);
    let e: u32 = if len + t > 173 {
        len + t - 173
    } else {
        0
    };
    if e >= 254 {
        proof {
            let low = pow2((len - 1) as nat);
            lemma_pow2_adds((len - 1) as nat, t as nat);
            if len - 1 + t > 426 {
                lemma_pow2_strictly_increases(426, (len - 1 + t) as nat);
            }
            lemma_pow2_adds(277, 149);
            assert(n >= pow2(277) * k) by (nonlinear_arith)
                requires
                    n == num * pow2(t as nat),
                    num == p * den + rest,
                    rest >= 0,
                    den >= 1,
                    p >= low,
                    low * pow2(t as nat) >= pow2(426),
                    pow2(426) == pow2(277) * pow2(149),
                    k == den * pow2(149),
                    pow2(t as nat) >= 0,
                    pow2(277) >= 0,
                    pow2(149) >= 0,
                    low >= 0,
            ;
            large_rounds_to_infinity(n, k);
        }
        return INFINITY;
    }
    if e + 149 <= t {
        // Nothing is shifted out: the result is exact.
        let s: u32 = t - 149 - e;
        assert(s + len <= 24);
        let scale = power_of_two(s);
        proof {
            assert(rest == 0);
            lemma_pow2_adds(len as nat, s as nat);
            if len + s < 24 {
                lemma_pow2_strictly_increases((len + s) as nat, 24);
            }
            assert(p * scale < pow2(len as nat) * scale) by (nonlinear_arith)
                requires
                    p < pow2(len as nat),
                    scale > 0,
            ;
        }
        let sig: u64 = p * scale;
        proof {
            if e > 0 {
                lemma_pow2_adds((len - 1) as nat, s as nat);
                assert(p * scale >= pow2((len - 1) as nat) * scale) by (nonlinear_arith)
                    requires
                        p >= pow2((len - 1) as nat),
                        scale > 0,
                ;
            }
            units_of_parts(e as nat, sig as nat);
            lemma_pow2_adds(s as nat, e as nat);
            lemma_pow2_adds((s + e) as nat, 149);
            let m = (e * HIDDEN + sig) as u32;
            assert(units(m) * k == n) by (nonlinear_arith)
                requires
                    units(m) == sig * pow2(e as nat),
                    sig == p * scale,
                    scale == pow2(s as nat),
                    pow2(t as nat) == pow2(s as nat) * pow2(e as nat) * pow2(149),
                    n == num * pow2(t as nat),
                    num == p * den + rest,
                    rest == 0,
                    k == den * pow2(149),
            ;
            exact_rounds_to_itself(k, m);
        }
        return e * HIDDEN + sig as u32;
    }
    let d: u32 = e + 149 - t;
    if d >= 52 {
        proof {
            assert(e == 0);
            if d > 52 {
                lemma_pow2_strictly_increases(52, d as nat);
            }
            let step = pow2(d as nat) * den;
            assert(num < step && 2 * num < step) by (nonlinear_arith)
                requires
                    num == p * den + rest,
                    rest < den,
                    p < 0x4_0000_0000_0000,
                    step == pow2(d as nat) * den,
                    pow2(d as nat) >= 0x10_0000_0000_0000,
                    den > 0,
            ;
            assert(num == 0 * step + num);
            shifted_rounds_to(num, den as nat, t as nat, 0, d as nat, 0, num, false);
        }
        return 0;
    }
    let scale = power_of_two(d);
    let q: u64 = p / scale;
    let low: u64 = p % scale;
    let up = 2 * low > scale || (2 * low == scale && (rest > 0 || q % 2 == 1));
    proof {
        lemma_fundamental_div_mod(p as int, scale as int);
        let step = pow2(d as nat) * den;
        let rem = (low * den + rest) as nat;
        assert(low * den + rest >= 0) by (nonlinear_arith)
            requires
                low >= 0,
                den >= 0,
                rest >= 0,
        ;
        assert(num == q * step + rem) by (nonlinear_arith)
            requires
                num == p * den + rest,
                p == scale * q + low,
                scale == pow2(d as nat),
                step == pow2(d as nat) * den,
                rem == low * den + rest,
        ;
        assert(rem < step) by (nonlinear_arith)
            requires
                rem == low * den + rest,
                low + 1 <= scale,
                rest < den,
                step == scale * den,
        ;
        // The power of two that is shifted out is even: short of one half
        // means short by a whole step, which no fraction makes up for.
        lemma_pow2_unfold(d as nat);
        let half = pow2((d - 1) as nat);
        assert(up == (2 * rem > step || (2 * rem == step && q % 2 == 1))) by (nonlinear_arith)
            requires
                up == (2 * low > scale || (2 * low == scale && (rest > 0 || q % 2 == 1))),
                rem == low * den + rest,
                step == scale * den,
                scale == 2 * half,
                0 <= rest < den,
                0 <= low,
                0 < scale,
        ;
        // The quotient has at most 24 bits, and exactly 24 above the subnormals.
        assert(len <= 24 + d);
        lemma_pow2_adds(24, d as nat);
        if len < 24 + d {
            lemma_pow2_strictly_increases(len as nat, (24 + d) as nat);
        }
        assert(q < 2 * HIDDEN) by (nonlinear_arith)
            requires
                p == scale * q + low,
                low >= 0,
                p < 0x100_0000 * scale,
                scale > 0,
                HIDDEN == 0x80_0000,
        ;
        if e > 0 {
            assert(len == 24 + d);
            lemma_pow2_adds(23, d as nat);
            assert(q >= HIDDEN) by (nonlinear_arith)
                requires
                    p == scale * q + low,
                    low < scale,
                    p >= 0x80_0000 * scale,
                    scale > 0,
                    HIDDEN == 0x80_0000,
            ;
        }
        shifted_rounds_to(num, den as nat, t as nat, e as nat, d as nat, q as nat, rem, up);
    }
    let sig: u64 = if up {
        q + 1
    } else {
        q
    };
    e * HIDDEN + sig as u32
}

} // verus!
