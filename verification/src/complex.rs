//! The two full representations of a complex number, their conversions and
//! their arithmetic in every pairing.

use vstd::prelude::*;
use vstd::std_specs::ops::{AddSpec, MulSpec};
use core::ops::{Add, Mul};
use crate::angle::{reduce, reduced};
use crate::arithmetic::{
    over, plus, product, product_commutes, product_of_like_signs, quotient, sum, sum_commutes,
    sum_of_non_negatives, times,
};
use crate::binary32;
use crate::binary32::{finite, negative, same, value, PI};
use crate::root::{root, root_of_non_negative, sqrt};

verus! {

/// Read access to a complex number: its real and imaginary part, its
/// argument in radians and its module, each as a binary32 encoding.
///
/// `Real` and `Im` implement it. `Cartesian` and `Polar` offer the same four
/// readings as methods of their own, since the argument of the one and the
/// parts of the other take a value from the caller.
pub trait Complex {
    fn re(&self) -> u32;

    fn im(&self) -> u32;

    fn argument(&self) -> u32;

    fn module(&self) -> u32;
}

/// The complex number `r + i·j`.
#[derive(Clone, Copy, Debug)]
pub struct Cartesian {
    pub r: u32,
    pub i: u32,
}

/// The complex number `module · e^(j·argument)`. The argument is kept as
/// given, whatever its size, and the module is not held to be positive.
#[derive(Clone, Copy, Debug)]
pub struct Polar {
    pub argument: u32,
    pub module: u32,
}

impl Cartesian {
    pub fn re(&self) -> (x: u32)
        ensures
            x == self.r,
    {
        self.r
    }

    pub fn im(&self) -> (y: u32)
        ensures
            y == self.i,
    {
        self.i
    }

    /// The module: the root of `r² + i²`, each step rounded. It never carries
    /// the sign bit.
    pub fn module(&self) -> (m: u32)
        ensures
            m == self.norm(),
            !negative(m),
    {
        sqrt(plus(times(self.r, self.r), times(self.i, self.i)))
    }

    /// The root of the sum of the squares of the two parts.
    pub open spec fn norm(&self) -> u32 {
        root(sum(product(self.r, self.r), product(self.i, self.i)))
    }

    /// The tangent of the argument: `i / r`. Over a real part of zero it is
    /// an infinity with the sign that the two parts give it, or `NAN` where
    /// the imaginary part is zero too.
    pub fn tangent(&self) -> (t: u32)
        ensures
            t == quotient(self.i, self.r),
    {
        over(self.i, self.r)
    }

    /// The argument in radians, given the arctangent of the tangent.
    ///
    /// The arctangent alone covers the half-plane of positive real parts. Where
    /// the real part carries the sign bit, negative zero included, the argument
    /// is π plus that arctangent; elsewhere it is the arctangent itself.
    pub fn argument(&self, arctangent: u32) -> (a: u32)
        ensures
            a == self.argument_from(arctangent),
    {
        if binary32::is_negative(self.r) {
            plus(PI, arctangent)
        } else {
            arctangent
        }
    }

    /// The argument that belongs to the arctangent of `i / r`.
    pub open spec fn argument_from(&self, arctangent: u32) -> u32 {
        if negative(self.r) {
            sum(PI, arctangent)
        } else {
            arctangent
        }
    }

    /// The polar form of this value for a given arctangent of the tangent.
    pub open spec fn to_polar(self, arctangent: u32) -> Polar {
        Polar { argument: self.argument_from(arctangent), module: self.norm() }
    }

    /// The Cartesian form of `p`, given the cosine and the sine of its stored
    /// argument.
    pub fn from_polar(p: Polar, cosine: u32, sine: u32) -> (c: Cartesian)
        ensures
            c == p.to_cartesian(cosine, sine),
    {
        Cartesian { r: p.re(cosine), i: p.im(sine) }
    }

    /// The product with another Cartesian value, given the arctangent of the
    /// tangent of each. Both factors are taken to polar form and multiplied
    /// there, so the product is polar.
    pub fn times(self, arctangent: u32, other: Cartesian, other_arctangent: u32) -> (p: Polar)
        ensures
            p == self.to_polar(arctangent).mul_spec(other.to_polar(other_arctangent)),
    {
        Polar::from_cartesian(self, arctangent) * Polar::from_cartesian(other, other_arctangent)
    }

    /// The product with a polar value, given the arctangent of the tangent of
    /// this one, which is taken to polar form.
    pub fn times_polar(self, arctangent: u32, p: Polar) -> (product: Polar)
        ensures
            product == self.to_polar(arctangent).mul_spec(p),
    {
        Polar::from_cartesian(self, arctangent) * p
    }

    /// The sum with a polar value, given the cosine and the sine of its stored
    /// argument. The polar value is taken to Cartesian form.
    pub fn plus_polar(self, p: Polar, cosine: u32, sine: u32) -> (sum: Cartesian)
        ensures
            sum == self.add_spec(p.to_cartesian(cosine, sine)),
    {
        self + Cartesian::from_polar(p, cosine, sine)
    }
}

impl Add for Cartesian {
    type Output = Cartesian;

    fn add(self, other: Cartesian) -> (c: Cartesian)
        ensures
            c.r == sum(self.r, other.r),
            c.i == sum(self.i, other.i),
    {
        Cartesian { r: plus(self.r, other.r), i: plus(self.i, other.i) }
    }
}

impl vstd::std_specs::ops::AddSpecImpl for Cartesian {
    open spec fn obeys_add_spec() -> bool {
        true
    }

    open spec fn add_req(self, other: Cartesian) -> bool {
        true
    }

    /// Part by part.
    open spec fn add_spec(self, other: Cartesian) -> Cartesian {
        Cartesian { r: sum(self.r, other.r), i: sum(self.i, other.i) }
    }
}

impl PartialEq for Cartesian {
    fn eq(&self, other: &Cartesian) -> (e: bool)
        ensures
            e == (same(self.r, other.r) && same(self.i, other.i)),
    {
        binary32::eq(self.r, other.r) && binary32::eq(self.i, other.i)
    }
}

impl vstd::std_specs::cmp::PartialEqSpecImpl for Cartesian {
    open spec fn obeys_eq_spec() -> bool {
        true
    }

    /// Both parts are numerically equal.
    open spec fn eq_spec(&self, other: &Cartesian) -> bool {
        same(self.r, other.r) && same(self.i, other.i)
    }
}

impl Polar {
    /// The stored argument reduced modulo a full turn. The result keeps the
    /// sign of the stored argument, so it may be negative.
    pub fn argument(&self) -> (a: u32)
        ensures
            reduced(self.argument, a),
    {
        reduce(self.argument)
    }

    /// The stored module, negative where it was given so.
    pub fn module(&self) -> (m: u32)
        ensures
            m == self.module,
    {
        self.module
    }

    /// The real part, given the cosine of the stored argument.
    pub fn re(&self, cosine: u32) -> (x: u32)
        ensures
            x == product(self.module, cosine),
    {
        times(self.module, cosine)
    }

    /// The imaginary part, given the sine of the stored argument.
    pub fn im(&self, sine: u32) -> (y: u32)
        ensures
            y == product(self.module, sine),
    {
        times(self.module, sine)
    }

    /// The Cartesian form of this value for a given cosine and sine of its
    /// stored argument.
    pub open spec fn to_cartesian(self, cosine: u32, sine: u32) -> Cartesian {
        Cartesian { r: product(self.module, cosine), i: product(self.module, sine) }
    }

    /// The polar form of `c`, given the arctangent of its tangent.
    pub fn from_cartesian(c: Cartesian, arctangent: u32) -> (p: Polar)
        ensures
            p == c.to_polar(arctangent),
    {
        Polar { argument: c.argument(arctangent), module: c.module() }
    }

    /// The sum with another polar value, given the cosine and the sine of the
    /// stored argument of each. A sum has no closed form in polar
    /// coordinates: both addends are taken to Cartesian form and added there,
    /// so the sum is Cartesian.
    pub fn plus(
        self,
        cosine: u32,
        sine: u32,
        other: Polar,
        other_cosine: u32,
        other_sine: u32,
    ) -> (sum: Cartesian)
        ensures
            sum == self.to_cartesian(cosine, sine).add_spec(
                other.to_cartesian(other_cosine, other_sine),
            ),
    {
        Cartesian::from_polar(self, cosine, sine) + Cartesian::from_polar(
            other,
            other_cosine,
            other_sine,
        )
    }

    /// The sum with a Cartesian value, given the cosine and the sine of the
    /// stored argument of this one, which is taken to Cartesian form.
    pub fn plus_cartesian(self, cosine: u32, sine: u32, c: Cartesian) -> (sum: Cartesian)
        ensures
            sum == self.to_cartesian(cosine, sine).add_spec(c),
    {
        Cartesian::from_polar(self, cosine, sine) + c
    }

    /// The product with a Cartesian value, given the arctangent of its
    /// tangent. The Cartesian value is taken to polar form.
    pub fn times_cartesian(self, c: Cartesian, arctangent: u32) -> (product: Polar)
        ensures
            product == self.mul_spec(c.to_polar(arctangent)),
    {
        self * Polar::from_cartesian(c, arctangent)
    }
}

impl Mul for Polar {
    type Output = Polar;

    fn mul(self, other: Polar) -> (p: Polar)
        ensures
            p.argument == sum(self.argument, other.argument),
            p.module == product(self.module, other.module),
    {
        Polar {
            argument: plus(self.argument, other.argument),
            module: times(self.module, other.module),
        }
    }
}

impl vstd::std_specs::ops::MulSpecImpl for Polar {
    open spec fn obeys_mul_spec() -> bool {
        true
    }

    open spec fn mul_req(self, other: Polar) -> bool {
        true
    }

    /// The arguments add up and the modules multiply. The sum of the
    /// arguments is stored as it is: it is reduced when it is read.
    open spec fn mul_spec(self, other: Polar) -> Polar {
        Polar {
            argument: sum(self.argument, other.argument),
            module: product(self.module, other.module),
        }
    }
}

impl PartialEq for Polar {
    fn eq(&self, other: &Polar) -> (e: bool)
        ensures
            e == (same(self.argument, other.argument) && same(self.module, other.module)),
    {
        binary32::eq(self.argument, other.argument) && binary32::eq(self.module, other.module)
    }
}

impl vstd::std_specs::cmp::PartialEqSpecImpl for Polar {
    open spec fn obeys_eq_spec() -> bool {
        true
    }

    /// The stored arguments are numerically equal, and so are the modules.
    open spec fn eq_spec(&self, other: &Polar) -> bool {
        same(self.argument, other.argument) && same(self.module, other.module)
    }
}

/// The module of a Cartesian value never carries the sign bit: it is zero or
/// more, or `NAN`.
pub proof fn module_is_not_negative(c: Cartesian)
    ensures
        !negative(c.norm()),
{
    product_of_like_signs(c.r, c.r);
    product_of_like_signs(c.i, c.i);
    sum_of_non_negatives(product(c.r, c.r), product(c.i, c.i));
    root_of_non_negative(sum(product(c.r, c.r), product(c.i, c.i)));
}

/// To the right of the imaginary axis the argument is the arctangent of
/// `i / r` itself.
pub proof fn argument_right_of_the_axis(c: Cartesian, arctangent: u32)
    requires
        finite(c.r),
        value(c.r) > 0,
    ensures
        c.argument_from(arctangent) == arctangent,
{
}

/// To the left of the imaginary axis the argument is π plus the arctangent
/// of `i / r`.
pub proof fn argument_left_of_the_axis(c: Cartesian, arctangent: u32)
    requires
        finite(c.r),
        value(c.r) < 0,
    ensures
        c.argument_from(arctangent) == sum(PI, arctangent),
{
}

/// The product of two polar values has the product of their modules for its
/// module, and what is read as its argument is the sum of their arguments
/// reduced modulo a full turn.
pub proof fn polar_product_composes(a: Polar, b: Polar, read: u32)
    requires
        reduced(a.mul_spec(b).argument, read),
    ensures
        reduced(sum(a.argument, b.argument), read),
        a.mul_spec(b).module == product(a.module, b.module),
{
}

/// Polar values multiply in either order to the same product.
pub proof fn polar_product_commutes(a: Polar, b: Polar)
    ensures
        a.mul_spec(b) == b.mul_spec(a),
{
    sum_commutes(a.argument, b.argument);
    product_commutes(a.module, b.module);
}

/// A Cartesian and a polar value multiply in either order to the same
/// product.
pub proof fn mixed_product_commutes(c: Cartesian, arctangent: u32, p: Polar)
    ensures
        c.to_polar(arctangent).mul_spec(p) == p.mul_spec(c.to_polar(arctangent)),
{
    polar_product_commutes(c.to_polar(arctangent), p);
}

/// A Cartesian and a polar value add in either order to the same sum.
pub proof fn mixed_sum_of_forms_commutes(c: Cartesian, p: Polar, cosine: u32, sine: u32)
    ensures
        c.add_spec(p.to_cartesian(cosine, sine)) == p.to_cartesian(cosine, sine).add_spec(c),
{
    cartesian_sum_commutes(c, p.to_cartesian(cosine, sine));
}

/// Cartesian values add in either order to the same sum.
pub proof fn cartesian_sum_commutes(a: Cartesian, b: Cartesian)
    ensures
        a.add_spec(b) == b.add_spec(a),
{
    sum_commutes(a.r, b.r);
    sum_commutes(a.i, b.i);
}

} // verus!
