use rust_complex::binary32::{FRAC_PI_2, NAN, PI};
use rust_complex::complex::{Cartesian, Complex, Polar};
use rust_complex::exp::exp;
use rust_complex::im::{im, Im};
use rust_complex::re::{re, Real};
use rust_complex::rotor::Rotor;

fn bits(x: f32) -> u32 {
    x.to_bits()
}

fn number(x: u32) -> f32 {
    f32::from_bits(x)
}

#[test]
fn when_real() {
    assert_eq!(number(re(bits(1.0)).re()), 1.0);
}

#[test]
fn real_complex_argument() {
    let r = re(bits(3.33));

    assert_eq!(number(r.argument()), 0.0);
}

#[test]
fn real_complex_module() {
    let r = re(bits(3.33));

    assert_eq!(number(r.module()), 3.33);
}

#[test]
fn real_addition() {
    let i1 = re(bits(1.11));
    let i2 = re(bits(2.22));

    assert_eq!(number((i1 + i2).re()), 1.11 + 2.22);
}

#[test]
fn real_multiplication() {
    let i1 = re(bits(1.11));
    let i2 = re(bits(2.22));

    assert_eq!(number((i1 * i2).argument()), 0.0);
    assert_eq!(number((i1 * i2).module()), 1.11 * 2.22);
}

#[test]
fn when_im() {
    assert_eq!(number(im(bits(1.0)).im()), 1.0);
}

#[test]
fn im_complex_argument() {
    let r = im(bits(3.33));

    assert_eq!(number(r.argument()), std::f32::consts::FRAC_PI_2);
}

#[test]
fn im_complex_module() {
    let r = im(bits(3.33));

    assert_eq!(number(r.module()), 3.33);
}

#[test]
fn im_addition() {
    let i1 = im(bits(1.11));
    let i2 = im(bits(2.22));

    assert_eq!(number((i1 + i2).im()), 1.11 + 2.22);
}

#[test]
fn im_multiplication() {
    let i1 = im(bits(1.11));
    let i2 = im(bits(2.22));

    assert_eq!(number((i1 * i2).argument()), std::f32::consts::PI);
    assert_eq!(number((i1 * i2).module()), 1.11 * 2.22);
}

#[test]
fn addition_when_real_positive_and_im_positive() {
    let r = re(bits(1.0));
    let i = im(bits(1.0));

    assert_eq!(number((r + i).re()), 1.0);
    assert_eq!(number((r + i).im()), 1.0);
}

#[test]
fn real_has_no_imaginary_part_and_no_angle() {
    for x in [0.0f32, -0.0, 3.33, -3.33, f32::INFINITY, f32::NAN] {
        let r = re(bits(x));
        assert_eq!(r.re(), bits(x));
        assert_eq!(r.im(), 0);
        assert_eq!(r.argument(), 0);
        assert_eq!(r.module(), bits(x));
    }
}

#[test]
fn real_module_keeps_a_negative_scalar() {
    assert_eq!(number(re(bits(-3.33)).module()), -3.33);
}

#[test]
fn im_has_no_real_part() {
    for y in [0.0f32, -0.0, 5.55, -5.55, f32::NEG_INFINITY] {
        let i = im(bits(y));
        assert_eq!(i.re(), 0);
        assert_eq!(i.im(), bits(y));
        assert_eq!(number(i.module()), y.abs());
        assert_eq!(number(i.argument()), y.signum() * std::f32::consts::FRAC_PI_2);
    }
}

#[test]
fn im_argument_follows_the_sign_bit() {
    assert_eq!(im(bits(0.0)).argument(), FRAC_PI_2);
    assert_eq!(im(bits(-0.0)).argument(), FRAC_PI_2 | 0x8000_0000);
    assert_eq!(number(im(bits(-2.0)).argument()), -std::f32::consts::FRAC_PI_2);
    assert_eq!(im(bits(f32::INFINITY)).argument(), FRAC_PI_2);
    assert_eq!(im(bits(f32::NAN)).argument(), NAN);
    assert_eq!(im(0xffc0_0000).argument(), NAN);
}

#[test]
fn im_module_clears_the_sign_bit() {
    assert_eq!(im(bits(-5.55)).module(), bits(5.55));
    assert_eq!(im(bits(-0.0)).module(), 0);
    assert_eq!(im(0xffc0_0001).module(), 0x7fc0_0001);
}

#[test]
fn im_times_im_is_half_a_turn() {
    let p = im(bits(1.11)) * im(bits(2.22));
    assert_eq!(p.argument, PI);
    assert_eq!(number(p.module), 1.11f32 * 2.22f32);
    assert!((number(p.module) - 2.4642).abs() < 1.0e-6);

    // The argument stays π where the product of the scalars is negative.
    let q = im(bits(-1.11)) * im(bits(2.22));
    assert_eq!(q.argument, PI);
    assert_eq!(number(q.module), -1.11f32 * 2.22f32);
}

#[test]
fn real_times_im_points_along_the_imaginary_factor() {
    let p = re(bits(3.33)) * im(bits(5.55));
    assert_eq!(p.argument, FRAC_PI_2);
    assert_eq!(number(p.module), 3.33f32 * 5.55f32);

    let q = re(bits(3.33)) * im(bits(-5.55));
    assert_eq!(number(q.argument), -std::f32::consts::FRAC_PI_2);
    assert_eq!(number(q.module), 3.33f32 * 5.55f32);

    let n = re(bits(-3.33)) * im(bits(1.0));
    assert_eq!(n.argument, FRAC_PI_2);
    assert_eq!(number(n.module), -3.33);
}

#[test]
fn real_plus_im_either_way() {
    let a: Cartesian = re(bits(3.33)) + im(bits(5.55));
    let b: Cartesian = im(bits(5.55)) + re(bits(3.33));
    assert_eq!(a.r, bits(3.33));
    assert_eq!(a.i, bits(5.55));
    assert!(a == b);
    assert_eq!((a.r, a.i), (b.r, b.i));
}

#[test]
fn sums_and_products_of_reals_round_as_the_numbers_do() {
    let pairs = [(3.33f32, 5.55f32), (-1.0e-40, 1.0e-41), (1.0e30, 1.0e30), (0.1, 0.2)];
    for (x, y) in pairs {
        assert_eq!(number((re(bits(x)) + re(bits(y))).re()), x + y);
        assert_eq!(number((re(bits(x)) * re(bits(y))).re()), x * y);
        assert_eq!(number((im(bits(x)) + im(bits(y))).im()), x + y);
    }
}

#[test]
fn equality_is_that_of_the_numbers() {
    assert!(re(bits(0.0)) == re(bits(-0.0)));
    assert!(re(bits(1.5)) == re(bits(1.5)));
    assert!(re(bits(1.5)) != re(bits(2.5)));
    assert!(re(NAN) != re(NAN));
    assert!(im(bits(0.0)) == im(bits(-0.0)));
    assert!(im(NAN) != im(NAN));
    assert!(Cartesian { r: 0, i: bits(2.0) } == Cartesian { r: 0x8000_0000, i: bits(2.0) });
    assert!(Cartesian { r: 0, i: bits(2.0) } != Cartesian { r: 0, i: bits(3.0) });
    assert!(Cartesian { r: NAN, i: 0 } != Cartesian { r: NAN, i: 0 });
    assert!(Polar { argument: PI, module: bits(1.0) } == Polar { argument: PI, module: bits(1.0) });
    assert!(Polar { argument: PI, module: bits(1.0) } != Polar { argument: PI, module: bits(2.0) });
    assert!(Polar { argument: PI, module: NAN } != Polar { argument: PI, module: NAN });
}

#[test]
fn exp_carries_the_angle() {
    let r: Rotor = exp(im(FRAC_PI_2));
    assert_eq!(r.angle, FRAC_PI_2);
    let i: Im = im(bits(-7.5));
    assert_eq!(number(exp(i).angle), -7.5);
}

#[test]
fn rotor_equals_the_real_of_its_angle() {
    let one: Real = re(bits(1.0));
    assert!(Rotor { angle: bits(1.0) } == one);
    assert!(Rotor { angle: bits(2.0) } != one);
    assert!(Rotor { angle: 0x8000_0000 } == re(0));
    assert!(Rotor { angle: NAN } != re(NAN));
    assert!(exp(im(bits(1.0))) == one);
}
