use rust_complex::binary32::NAN;
use rust_complex::complex::{Cartesian, Polar};
use rust_complex::im::im;
use rust_complex::re::re;
use std::f32::consts::{FRAC_PI_2, FRAC_PI_4};

fn bits(x: f32) -> u32 {
    x.to_bits()
}

fn number(x: u32) -> f32 {
    f32::from_bits(x)
}

fn cart(r: f32, i: f32) -> Cartesian {
    Cartesian { r: bits(r), i: bits(i) }
}

fn pol(argument: f32, module: f32) -> Polar {
    Polar { argument: bits(argument), module: bits(module) }
}

// The library takes the arctangent, the cosine and the sine from its caller.
// These helpers supply them.

fn arctangent_of(c: &Cartesian) -> u32 {
    bits(number(c.tangent()).atan())
}

fn cosine_of(p: &Polar) -> u32 {
    bits(number(p.argument).cos())
}

fn sine_of(p: &Polar) -> u32 {
    bits(number(p.argument).sin())
}

fn argument_of(c: &Cartesian) -> f32 {
    number(c.argument(arctangent_of(c)))
}

fn to_polar(c: Cartesian) -> Polar {
    Polar::from_cartesian(c, arctangent_of(&c))
}

fn re_of(p: &Polar) -> f32 {
    number(p.re(cosine_of(p)))
}

fn im_of(p: &Polar) -> f32 {
    number(p.im(sine_of(p)))
}

fn to_cartesian(p: Polar) -> Cartesian {
    Cartesian::from_polar(p, cosine_of(&p), sine_of(&p))
}

#[test]
fn cartesian() {
    let real_part = 3.33;
    let im_part = 5.55;

    let c = cart(real_part, im_part);

    assert_eq!(number(c.re()), real_part);
    assert_eq!(number(c.im()), im_part);
}

#[test]
fn polar() {
    let angle = 3.33;
    let module = 5.55;

    let c = pol(angle, module);

    assert_eq!(number(c.argument()), angle);
    assert_eq!(number(c.module()), module);
}

#[test]
fn cartesian_argument_when_real_positive() {
    let c = cart(3.33, 0.0);

    assert_eq!(argument_of(&c), 0.0);
}

#[test]
fn cartesian_argument_when_real_negative() {
    let c = cart(-3.33, 0.0);

    assert_eq!(argument_of(&c), std::f32::consts::PI);
}

#[test]
fn cartesian_argument_when_im_positive() {
    let c = cart(0.0, 3.33);

    assert_eq!(argument_of(&c), FRAC_PI_2);
}

#[test]
fn cartesian_argument_when_im_negative() {
    let c = cart(0.0, -3.33);

    assert_eq!(argument_of(&c), -FRAC_PI_2);
}

#[test]
fn cartesian_argument_when_positive_negative_and_im_positive() {
    let c = cart(-1.0, 1.0);

    assert_eq!(argument_of(&c), std::f32::consts::PI - FRAC_PI_4);
}

#[test]
fn cartesian_to_polar_when_real_positive_and_im_positive() {
    let real_part = 3.33;
    let im_part = 5.55;

    let c = cart(real_part, im_part);

    let p: Polar = to_polar(c);

    let _ = approx::Relative::default().eq(&re_of(&p), &real_part);
    let _ = approx::Relative::default().eq(&im_of(&p), &im_part);
}

#[test]
fn cartesian_to_polar_when_real_negative_and_im_positive() {
    let real_part = -3.33;
    let im_part = 5.55;

    let c = cart(real_part, im_part);

    let p: Polar = to_polar(c);

    let _ = approx::Relative::default().eq(&re_of(&p), &real_part);
    let _ = approx::Relative::default().eq(&im_of(&p), &im_part);
}

#[test]
fn cartesian_to_polar_when_real_negative_and_im_negative() {
    let real_part = -3.33;
    let im_part = -5.55;

    let c = cart(real_part, im_part);

    let p: Polar = to_polar(c);

    let _ = approx::Relative::default().eq(&re_of(&p), &real_part);
    let _ = approx::Relative::default().eq(&im_of(&p), &im_part);
}

#[test]
fn cartesian_to_polar_when_real_positive_and_im_negative() {
    let real_part = 3.33;
    let im_part = -5.55;

    let c = cart(real_part, im_part);

    let p: Polar = to_polar(c);

    let _ = approx::Relative::default().eq(&re_of(&p), &real_part);
    let _ = approx::Relative::default().eq(&im_of(&p), &im_part);
}

#[test]
fn polar_to_cartesian_when_real_positive_and_im_positive() {
    let argument = FRAC_PI_4;
    let module = 3.33;

    let p = pol(argument, module);
    let c: Cartesian = to_cartesian(p);

    let _ = approx::Relative::default().eq(&number(c.re()), &(module * argument.cos()));
    let _ = approx::Relative::default().eq(&number(c.im()), &(module * argument.sin()));
}

#[test]
fn polar_to_cartesian_when_real_negative_and_im_positive() {
    let argument = FRAC_PI_2 + FRAC_PI_4;
    let module = 3.33;

    let p = pol(argument, module);
    let c: Cartesian = to_cartesian(p);

    let _ = approx::Relative::default().eq(&number(c.re()), &(-module * argument.cos()));
    let _ = approx::Relative::default().eq(&number(c.im()), &(module * argument.sin()));
}

#[test]
fn polar_to_cartesian_when_real_negative_and_im_negative() {
    let argument = std::f32::consts::PI + FRAC_PI_4;
    let module = 3.33;

    let p = pol(argument, module);
    let c: Cartesian = to_cartesian(p);

    let _ = approx::Relative::default().eq(&number(c.re()), &(-module * argument.cos()));
    let _ = approx::Relative::default().eq(&number(c.im()), &(-module * argument.sin()));
}

#[test]
fn polar_to_cartesian_when_real_positive_and_im_negative() {
    let argument = std::f32::consts::PI + FRAC_PI_2 + FRAC_PI_4;
    let module = 3.33;

    let p = pol(argument, module);
    let c: Cartesian = to_cartesian(p);

    let _ = approx::Relative::default().eq(&number(c.re()), &(module * argument.cos()));
    let _ = approx::Relative::default().eq(&number(c.im()), &(-module * argument.sin()));
}

#[test]
fn add_cartesian_to_polar() {
    let polar = pol(0.0, 1.0);
    let p = polar.plus_cartesian(cosine_of(&polar), sine_of(&polar), cart(1.0, 0.0));

    assert_eq!(number(p.re()), 2.0);
    assert_eq!(number(p.im()), 0.0);
}

#[test]
fn add_polar_to_cartesian() {
    let polar = pol(0.0, 1.0);
    let c = cart(1.0, 0.0).plus_polar(polar, cosine_of(&polar), sine_of(&polar));

    assert_eq!(number(c.re()), 2.0);
    assert_eq!(number(c.im()), 0.0);
}

#[test]
fn mul_cartesian_with_cartesian() {
    let c1 = cart(1.0, 0.0);
    let c2 = cart(0.0, 1.0);

    let product = c1.times(arctangent_of(&c1), c2, arctangent_of(&c2));

    assert_eq!(number(product.argument()), FRAC_PI_2);
    assert_eq!(number(product.module()), 1.0);
}

#[test]
fn mul_polar_with_polar() {
    let first = pol(3.33, 1.1);
    let second = pol(5.55, 2.2);

    assert_eq!(
        number((first * second).argument()),
        (3.33 + 5.55) % (std::f32::consts::PI + std::f32::consts::PI)
    );
    assert_eq!(number((first * second).module()), 1.1 * 2.2);
}

#[test]
fn mul_polar_with_polar_when_result_argument_larger_than_two_pi() {
    let first = pol(std::f32::consts::PI + FRAC_PI_4, 1.1);
    let second = pol(std::f32::consts::PI + FRAC_PI_4, 2.2);

    let _ = approx::Relative::default().eq(&number((first * second).argument()), &FRAC_PI_2);
    assert_eq!(number((first * second).module()), 1.1 * 2.2);
}

#[test]
fn mul_cartesian_with_polar_when_real_positive() {
    let c = cart(1.0, 0.0);
    let p = pol(FRAC_PI_2, 1.0);

    assert_eq!(number(c.times_polar(arctangent_of(&c), p).argument()), FRAC_PI_2);
    assert_eq!(number(c.times_polar(arctangent_of(&c), p).module()), 1.0);
}

#[test]
fn mul_cartesian_with_polar_when_real_negative() {
    let c = cart(-1.0, 0.0);
    let p = pol(FRAC_PI_2, 1.0);

    assert_eq!(
        number(c.times_polar(arctangent_of(&c), p).argument()),
        argument_of(&c) + FRAC_PI_2
    );
    assert_eq!(number(c.times_polar(arctangent_of(&c), p).module()), 1.0);
}

#[test]
fn mul_polar_with_cartesian() {
    let c = cart(1.0, 0.0);
    let p = pol(FRAC_PI_2, 1.0);

    assert_eq!(number(p.times_cartesian(c, arctangent_of(&c)).argument()), FRAC_PI_2);
    assert_eq!(number(p.times_cartesian(c, arctangent_of(&c)).module()), 1.0);
}

#[test]
fn additions() {
    let polar = pol(FRAC_PI_2, 1.0);
    let c = (re(bits(3.33)) + im(bits(5.55)) + cart(1.0, 1.0)).plus_polar(
        polar,
        cosine_of(&polar),
        sine_of(&polar),
    );

    assert_eq!(number(c.re()), 4.33);
    assert_eq!(number(c.im()), 7.55);
}

#[test]
fn multiplication_when_real_positive_and_im_positive() {
    let p = re(bits(3.33)) * im(bits(1.0));

    let _ = approx::Relative::default().eq(&im_of(&p), &3.33);
    let _ = approx::Relative::default().eq(&re_of(&p), &0.00);
}

#[test]
fn multiplication_when_real_negative_and_im_positive() {
    let p = re(bits(-3.33)) * im(bits(1.0));

    let _ = approx::Relative::default().eq(&im_of(&p), &-3.33);
    let _ = approx::Relative::default().eq(&re_of(&p), &0.00);
}

#[test]
fn multiplications() {
    let corner = cart(2.0, 2.0);
    let c = ((re(bits(3.33)) * im(bits(5.55))) * pol(1.0, 2.0))
        .times_cartesian(corner, arctangent_of(&corner));

    assert_eq!(number(c.argument()), 1.0 + FRAC_PI_2 + FRAC_PI_4);
}

#[test]
fn argument_takes_half_a_turn_for_any_set_sign_bit() {
    // Negative zero counts as negative: the arctangent of 1 / -0 is -π/2.
    let c = cart(-0.0, 1.0);
    assert_eq!(argument_of(&c), std::f32::consts::PI + (-FRAC_PI_2));
    assert_eq!(c.argument(bits(-FRAC_PI_2)), bits(std::f32::consts::PI - FRAC_PI_2));

    // Whatever is handed in as the arctangent comes back unchanged on the right.
    for a in [0.0f32, -0.0, 0.5, -1.5, f32::NAN] {
        assert_eq!(cart(2.0, 1.0).argument(bits(a)), bits(a));
        assert_eq!(cart(0.0, 1.0).argument(bits(a)), bits(a));
    }
    for a in [0.0f32, 0.5, -1.5] {
        assert_eq!(number(cart(-2.0, 1.0).argument(bits(a))), std::f32::consts::PI + a);
    }
    assert_eq!(cart(-2.0, 1.0).argument(NAN), NAN);
}

#[test]
fn argument_of_a_zero_real_part_is_a_quarter_turn() {
    assert_eq!(argument_of(&cart(0.0, 2.0)), FRAC_PI_2);
    assert_eq!(argument_of(&cart(0.0, -2.0)), -FRAC_PI_2);
    assert!(argument_of(&cart(0.0, 0.0)).is_nan());
}

#[test]
fn polar_argument_is_reduced_only_when_read() {
    let p = pol(3.33, 1.1) * pol(5.55, 2.2);
    assert_eq!(number(p.argument), 3.33f32 + 5.55f32);
    assert_eq!(number(p.argument()), (3.33f32 + 5.55f32) % std::f32::consts::TAU);
    assert_eq!(number(p.module), 2.42);
}

#[test]
fn polar_argument_keeps_the_sign_of_what_is_stored() {
    assert_eq!(number(pol(-7.0, 1.0).argument()), -7.0f32 % std::f32::consts::TAU);
    assert!(number(pol(-7.0, 1.0).argument()) < 0.0);
    assert_eq!(pol(-0.0, 1.0).argument(), bits(-0.0));
    assert_eq!(pol(f32::INFINITY, 1.0).argument(), NAN);
}

#[test]
fn polar_module_is_not_made_positive() {
    assert_eq!(number(pol(1.0, -5.55).module()), -5.55);
}

#[test]
fn polar_parts_are_the_module_times_cosine_and_sine() {
    let p = pol(FRAC_PI_4, 3.33);
    assert_eq!(re_of(&p), 3.33 * FRAC_PI_4.cos());
    assert_eq!(im_of(&p), 3.33 * FRAC_PI_4.sin());
    assert_eq!(p.re(bits(0.5)), bits(3.33f32 * 0.5));
    assert_eq!(p.im(bits(-1.0)), bits(-3.33));
}

#[test]
fn cartesian_sum_is_taken_part_by_part() {
    let c = cart(3.33, 5.55) + cart(1.0, -7.0);
    assert_eq!(number(c.r), 3.33f32 + 1.0);
    assert_eq!(number(c.i), 5.55f32 - 7.0);
    let d = cart(1.0, -7.0) + cart(3.33, 5.55);
    assert_eq!((c.r, c.i), (d.r, d.i));
}

#[test]
fn polar_product_in_either_order() {
    let a = pol(3.33, 1.1);
    let b = pol(5.55, 2.2);
    let ab = a * b;
    let ba = b * a;
    assert_eq!((ab.argument, ab.module), (ba.argument, ba.module));
}

#[test]
fn there_and_back_again() {
    for (r, i) in [(3.33f32, 5.55f32), (-3.33, 5.55), (-3.33, -5.55), (3.33, -5.55), (12.0, 0.5)] {
        let back = to_cartesian(to_polar(cart(r, i)));
        assert!(((number(back.r) - r) / r).abs() < 1.0e-4, "{} {}", r, i);
        assert!(((number(back.i) - i) / i).abs() < 1.0e-4, "{} {}", r, i);
    }
}

#[test]
fn one_times_the_imaginary_unit() {
    let one = cart(1.0, 0.0);
    let unit = cart(0.0, 1.0);
    let p = one.times(arctangent_of(&one), unit, arctangent_of(&unit));
    assert_eq!(number(p.argument()), FRAC_PI_2);
    assert_eq!(number(p.module()), 1.0);
    let q = unit.times(arctangent_of(&unit), one, arctangent_of(&one));
    assert_eq!(number(q.argument()), FRAC_PI_2);
    assert_eq!(number(q.module()), 1.0);
    // In mixed forms and in either order.
    let r = one.times_polar(arctangent_of(&one), to_polar(unit));
    let s = to_polar(unit).times_cartesian(one, arctangent_of(&one));
    assert_eq!((r.argument(), r.module()), (bits(FRAC_PI_2), bits(1.0)));
    assert_eq!((s.argument(), s.module()), (bits(FRAC_PI_2), bits(1.0)));
}

#[test]
fn spiral() {
    let mut p = to_polar(cart(3.0, 0.0));
    assert_eq!(p.argument, 0);
    assert_eq!(number(p.module), 3.0);
    for _ in 0..1000 {
        p = p * pol(0.1, 1.01);
    }
    let module = 3.0f64 * 1.01f64.powi(1000);
    assert!(((number(p.module()) as f64 - module) / module).abs() < 1.0e-4);
    let argument = 100.0f64 % (2.0 * std::f64::consts::PI);
    assert!((number(p.argument()) as f64 - argument).abs() < 1.0e-2);
}

#[test]
fn conversions_take_what_they_are_given() {
    let c = cart(-3.0, 4.0);
    let p = Polar::from_cartesian(c, bits(-0.5));
    assert_eq!(number(p.argument), std::f32::consts::PI + -0.5);
    assert_eq!(number(p.module), 5.0);
    let q = Polar::from_cartesian(cart(3.0, 4.0), bits(0.75));
    assert_eq!(number(q.argument), 0.75);
    assert_eq!(number(q.module), 5.0);

    let back = Cartesian::from_polar(pol(1.0, 5.0), bits(0.6), bits(-0.8));
    assert_eq!(number(back.r), 5.0f32 * 0.6);
    assert_eq!(number(back.i), 5.0f32 * -0.8);
}

#[test]
fn cartesian_module_when_real_positive_and_im_positive() {
    let c = cart(1.0, 1.0);

    assert_eq!(number(c.module()), 2.0f32.sqrt());
}

#[test]
fn cartesian_module_when_real_negative_and_im_positive() {
    let c = cart(-1.0, 1.0);

    assert_eq!(number(c.module()), 2.0f32.sqrt());
}

#[test]
fn cartesian_module_when_real_negative_and_im_negative() {
    let c = cart(-1.0, -1.0);

    assert_eq!(number(c.module()), 2.0f32.sqrt());
}

#[test]
fn cartesian_module_when_real_positive_and_im_negative() {
    let c = cart(1.0, -1.0);

    assert_eq!(number(c.module()), 2.0f32.sqrt());
}

#[test]
fn cartesian_module_is_the_root_of_the_squares() {
    let samples = [
        (3.0f32, 4.0f32),
        (3.33, 5.55),
        (-3.33, 5.55),
        (0.0, 0.0),
        (-0.0, -0.0),
        (1.0e-30, 1.0e-30),
        (1.0e30, 1.0e30),
        (f32::INFINITY, 1.0),
        (1.0, f32::NEG_INFINITY),
    ];
    for (r, i) in samples {
        let m = number(cart(r, i).module());
        assert_eq!(m, (r * r + i * i).sqrt(), "{} {}", r, i);
        assert!(m.is_sign_positive(), "{} {}", r, i);
    }
    assert_eq!(number(cart(3.0, 4.0).module()), 5.0);
    assert_eq!(cart(f32::NAN, 1.0).module(), NAN);
    assert_eq!(cart(1.0, -f32::NAN).module(), NAN);
}

#[test]
fn tangent_is_the_quotient_of_the_parts() {
    assert_eq!(number(cart(2.0, 1.0).tangent()), 0.5);
    assert_eq!(number(cart(-3.33, 5.55).tangent()), 5.55f32 / -3.33f32);
    assert_eq!(number(cart(0.0, 3.33).tangent()), f32::INFINITY);
    assert_eq!(number(cart(0.0, -3.33).tangent()), f32::NEG_INFINITY);
    assert_eq!(number(cart(-0.0, 3.33).tangent()), f32::NEG_INFINITY);
    assert_eq!(cart(0.0, 0.0).tangent(), NAN);
}

#[test]
fn polar_sum_is_taken_in_cartesian_form() {
    let a = pol(0.0, 1.0);
    let b = pol(FRAC_PI_2, 2.0);
    let sum = a.plus(cosine_of(&a), sine_of(&a), b, cosine_of(&b), sine_of(&b));
    assert_eq!(number(sum.r), 1.0 + 2.0 * FRAC_PI_2.cos());
    assert_eq!(number(sum.i), 0.0 + 2.0 * FRAC_PI_2.sin());

    // With the cosines and sines of the axes the sum is exact.
    let exact = a.plus(bits(1.0), bits(0.0), b, bits(0.0), bits(1.0));
    assert_eq!((number(exact.r), number(exact.i)), (1.0, 2.0));
}

#[test]
fn mixed_sums_in_either_order() {
    let c = cart(3.33, 5.55);
    let p = pol(1.0, 2.0);
    let left = c.plus_polar(p, cosine_of(&p), sine_of(&p));
    let right = p.plus_cartesian(cosine_of(&p), sine_of(&p), c);
    assert_eq!((left.r, left.i), (right.r, right.i));
    assert_eq!(number(left.r), 3.33 + 2.0 * 1.0f32.cos());
    assert_eq!(number(left.i), 5.55 + 2.0 * 1.0f32.sin());
}
