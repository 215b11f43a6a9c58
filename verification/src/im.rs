//! Complex numbers on the imaginary axis.

use vstd::prelude::*;
use vstd::std_specs::ops::AddSpec;
use core::ops::{Add, Mul};
use crate::arithmetic::{plus, product, sum, times};
use crate::binary32;
use crate::binary32::{
    magnitude, nan, negative, same, signed_as, FRAC_PI_2, NAN, PI, ZERO,
};
use crate::complex::{Cartesian, Complex, Polar};
use crate::re::Real;

verus! {

/// The imaginary number `i·j`, taken as a complex number.
#[derive(Clone, Copy, Debug)]
pub struct Im {
    pub i: u32,
}

/// The imaginary number whose scalar `y` encodes.
pub fn im(y: u32) -> (v: Im)
    ensures
        v.i == y,
{
    Im { i: y }
}

/// The argument of the imaginary number with scalar `i`: a quarter turn
/// towards the side of the scalar's sign. It is π/2 for a scalar without the
/// sign bit, zero included, -π/2 for one with it, and `NAN` for a NaN.
pub open spec fn quarter_turn(i: u32) -> u32 {
    if nan(i) {
        NAN
    } else {
        signed_as(FRAC_PI_2, i)
    }
}

impl Complex for Im {
    fn re(&self) -> (x: u32)
        ensures
            x == ZERO,
    {
        ZERO
    }

    fn im(&self) -> (y: u32)
        ensures
            y == self.i,
    {
        self.i
    }

    fn argument(&self) -> (a: u32)
        ensures
            a == quarter_turn(self.i),
    {
        if binary32::is_nan(self.i) {
            NAN
        } else {
            binary32::copy_sign(FRAC_PI_2, self.i)
        }
    }

    /// The absolute value of the scalar: it never carries the sign bit.
    fn module(&self) -> (m: u32)
        ensures
            m == magnitude(self.i),
            !negative(m),
    {
        binary32::abs(self.i)
    }
}

impl Add for Im {
    type Output = Im;

    fn add(self, other: Im) -> (v: Im)
        ensures
            v.i == sum(self.i, other.i),
    {
        Im { i: plus(self.i, other.i) }
    }
}

impl vstd::std_specs::ops::AddSpecImpl for Im {
    open spec fn obeys_add_spec() -> bool {
        true
    }

    open spec fn add_req(self, other: Im) -> bool {
        true
    }

    open spec fn add_spec(self, other: Im) -> Im {
        Im { i: sum(self.i, other.i) }
    }
}

impl Mul for Im {
    type Output = Polar;

    fn mul(self, other: Im) -> (p: Polar)
        ensures
            p.argument == PI,
            p.module == product(self.i, other.i),
    {
        Polar { argument: PI, module: times(self.i, other.i) }
    }
}

impl vstd::std_specs::ops::MulSpecImpl for Im {
    open spec fn obeys_mul_spec() -> bool {
        true
    }

    open spec fn mul_req(self, other: Im) -> bool {
        true
    }

    /// Half a turn, whatever the signs of the factors, with the product of
    /// the scalars for a module: negative where the signs differ.
    open spec fn mul_spec(self, other: Im) -> Polar {
        Polar { argument: PI, module: product(self.i, other.i) }
    }
}

impl Add<Real> for Im {
    type Output = Cartesian;

    fn add(self, x: Real) -> (c: Cartesian)
        ensures
            c.r == x.r,
            c.i == self.i,
    {
        x + self
    }
}

impl vstd::std_specs::ops::AddSpecImpl<Real> for Im {
    open spec fn obeys_add_spec() -> bool {
        true
    }

    open spec fn add_req(self, x: Real) -> bool {
        true
    }

    /// An imaginary and a real number are the two parts of their sum.
    open spec fn add_spec(self, x: Real) -> Cartesian {
        Cartesian { r: x.r, i: self.i }
    }
}

impl PartialEq for Im {
    fn eq(&self, other: &Im) -> (e: bool)
        ensures
            e == same(self.i, other.i),
    {
        binary32::eq(self.i, other.i)
    }
}

impl vstd::std_specs::cmp::PartialEqSpecImpl for Im {
    open spec fn obeys_eq_spec() -> bool {
        true
    }

    open spec fn eq_spec(&self, other: &Im) -> bool {
        same(self.i, other.i)
    }
}

/// A real and an imaginary number add in either order to the same sum.
pub proof fn mixed_sum_commutes(x: Real, y: Im)
    ensures
        x.add_spec(y) == y.add_spec(x),
{
}

} // verus!
