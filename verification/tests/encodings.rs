use rust_complex::angle::reduce;
use rust_complex::binary32::{abs, copy_sign, eq, is_finite, is_nan, is_negative, FRAC_PI_2, NAN, PI, TAU};

#[test]
fn constants_encode_the_nearest_numbers() {
    assert_eq!(PI, std::f32::consts::PI.to_bits());
    assert_eq!(FRAC_PI_2, std::f32::consts::FRAC_PI_2.to_bits());
    assert_eq!(TAU, (2.0f32 * std::f32::consts::PI).to_bits());
    assert_eq!(TAU, std::f32::consts::TAU.to_bits());
    assert!(f32::from_bits(NAN).is_nan());
}

fn samples() -> Vec<f32> {
    let mut v = vec![
        0.0f32,
        -0.0,
        1.0,
        -1.0,
        3.33,
        -3.33,
        5.55,
        6.2831855,
        -6.2831855,
        6.283185,
        6.283186,
        12.566371,
        100.0,
        -100.0,
        8.88,
        1.0e10,
        -1.0e10,
        3.0e38,
        f32::MAX,
        f32::MIN,
        f32::MIN_POSITIVE,
        1.0e-45,
        -1.0e-45,
        1.0e-40,
        f32::INFINITY,
        f32::NEG_INFINITY,
        f32::NAN,
        -f32::NAN,
    ];
    let mut x: u32 = 0x1234_5678;
    for _ in 0..20000 {
        x ^= x << 13;
        x ^= x >> 17;
        x ^= x << 5;
        v.push(f32::from_bits(x));
    }
    v
}

#[test]
fn sign_and_class_agree_with_the_numbers() {
    for x in samples() {
        let b = x.to_bits();
        assert_eq!(is_negative(b), x.is_sign_negative());
        assert_eq!(is_nan(b), x.is_nan());
        assert_eq!(is_finite(b), x.is_finite());
        assert_eq!(abs(b), x.abs().to_bits());
    }
}

#[test]
fn copy_sign_agrees_with_the_numbers() {
    let s = samples();
    for (k, x) in s.iter().enumerate() {
        let y = s[(k * 7 + 3) % s.len()];
        assert_eq!(copy_sign(x.to_bits(), y.to_bits()), x.copysign(y).to_bits());
    }
}

#[test]
fn equality_agrees_with_the_numbers() {
    let s = samples();
    for (k, x) in s.iter().enumerate() {
        let y = s[(k * 11 + 5) % s.len()];
        assert_eq!(eq(x.to_bits(), y.to_bits()), *x == y);
        assert_eq!(eq(x.to_bits(), x.to_bits()), *x == *x);
    }
    assert!(eq(0.0f32.to_bits(), (-0.0f32).to_bits()));
    assert!(!eq(NAN, NAN));
    assert!(!eq(1.0f32.to_bits(), 2.0f32.to_bits()));
}

#[test]
fn reduction_agrees_with_the_remainder() {
    let tau = 2.0f32 * std::f32::consts::PI;
    for x in samples() {
        let expected = x % tau;
        let got = reduce(x.to_bits());
        if expected.is_nan() {
            assert_eq!(got, NAN);
        } else {
            assert_eq!(got, expected.to_bits(), "remainder of {}", x);
        }
    }
}

#[test]
fn reduction_of_whole_turns_is_a_signed_zero() {
    assert_eq!(reduce(TAU), 0);
    assert_eq!(reduce(TAU | 0x8000_0000), 0x8000_0000);
    assert_eq!(reduce((4.0f32 * std::f32::consts::PI).to_bits()), 0);
}

#[test]
fn reduction_of_what_is_not_finite_is_nan() {
    assert_eq!(reduce(f32::INFINITY.to_bits()), NAN);
    assert_eq!(reduce(f32::NEG_INFINITY.to_bits()), NAN);
    assert_eq!(reduce(f32::NAN.to_bits()), NAN);
    assert_eq!(reduce(0xffff_ffff), NAN);
}

#[test]
fn reduction_exact_values() {
    // 8.88 - 2π, with both operands already rounded to binary32.
    assert_eq!(reduce(0x410e_147b), 0x4026_3236);
    assert_eq!(f32::from_bits(reduce(100.0f32.to_bits())), 100.0f32 % std::f32::consts::TAU);
    assert_eq!(reduce(3.33f32.to_bits()), 3.33f32.to_bits());
    assert_eq!(reduce((-3.33f32).to_bits()), (-3.33f32).to_bits());
}
