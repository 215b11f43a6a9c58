//! Complex numbers on the real axis.

use vstd::prelude::*;
use core::ops::{Add, Mul};
use crate::arithmetic::{plus, product, sum, times};
use crate::binary32;
use crate::binary32::{magnitude, same, ZERO};
use crate::complex::{Cartesian, Complex, Polar};
use crate::im::{quarter_turn, Im};

verus! {

/// The real number `r`, taken as a complex number.
#[derive(Clone, Copy, Debug)]
pub struct Real {
    pub r: u32,
}

/// The real number that `x` encodes.
pub fn re(x: u32) -> (v: Real)
    ensures
        v.r == x,
{
    Real { r: x }
}

impl Complex for Real {
    fn re(&self) -> (x: u32)
        ensures
            x == self.r,
    {
        self.r
    }

    fn im(&self) -> (y: u32)
        ensures
            y == ZERO,
    {
        ZERO
    }

    fn argument(&self) -> (a: u32)
        ensures
            a == ZERO,
    {
        ZERO
    }

    /// The scalar itself, not its absolute value: negative where the scalar is.
    fn module(&self) -> (m: u32)
        ensures
            m == self.r,
    {
        self.r
    }
}

impl Add for Real {
    type Output = Real;

    fn add(self, other: Real) -> (v: Real)
        ensures
            v.r == sum(self.r, other.r),
    {
        Real { r: plus(self.r, other.r) }
    }
}

impl vstd::std_specs::ops::AddSpecImpl for Real {
    open spec fn obeys_add_spec() -> bool {
        true
    }

    open spec fn add_req(self, other: Real) -> bool {
        true
    }

    open spec fn add_spec(self, other: Real) -> Real {
        Real { r: sum(self.r, other.r) }
    }
}

impl Mul for Real {
    type Output = Real;

    fn mul(self, other: Real) -> (v: Real)
        ensures
            v.r == product(self.r, other.r),
    {
        Real { r: times(self.r, other.r) }
    }
}

impl vstd::std_specs::ops::MulSpecImpl for Real {
    open spec fn obeys_mul_spec() -> bool {
        true
    }

    open spec fn mul_req(self, other: Real) -> bool {
        true
    }

    open spec fn mul_spec(self, other: Real) -> Real {
        Real { r: product(self.r, other.r) }
    }
}

impl Mul<Im> for Real {
    type Output = Polar;

    fn mul(self, x: Im) -> (p: Polar)
        ensures
            p.argument == quarter_turn(x.i),
            p.module == product(self.r, magnitude(x.i)),
    {
        Polar { argument: x.argument(), module: times(self.r, x.module()) }
    }
}

impl vstd::std_specs::ops::MulSpecImpl<Im> for Real {
    open spec fn obeys_mul_spec() -> bool {
        true
    }

    open spec fn mul_req(self, x: Im) -> bool {
        true
    }

    /// The product points where the imaginary factor points, and its module
    /// is the real scalar times the module of the imaginary factor: negative
    /// where the real scalar is.
    open spec fn mul_spec(self, x: Im) -> Polar {
        Polar {
            argument: quarter_turn(x.i),
            module: product(self.r, magnitude(x.i)),
        }
    }
}

impl Add<Im> for Real {
    type Output = Cartesian;

    fn add(self, x: Im) -> (c: Cartesian)
        ensures
            c.r == self.r,
            c.i == x.i,
    {
        Cartesian { r: self.r, i: x.im() }
    }
}

impl vstd::std_specs::ops::AddSpecImpl<Im> for Real {
    open spec fn obeys_add_spec() -> bool {
        true
    }

    open spec fn add_req(self, x: Im) -> bool {
        true
    }

    /// A real and an imaginary number are the two parts of their sum.
    open spec fn add_spec(self, x: Im) -> Cartesian {
        Cartesian { r: self.r, i: x.i }
    }
}

impl PartialEq for Real {
    fn eq(&self, other: &Real) -> (e: bool)
        ensures
            e == same(self.r, other.r),
    {
        binary32::eq(self.r, other.r)
    }
}

impl vstd::std_specs::cmp::PartialEqSpecImpl for Real {
    open spec fn obeys_eq_spec() -> bool {
        true
    }

    open spec fn eq_spec(&self, other: &Real) -> bool {
        same(self.r, other.r)
    }
}

} // verus!
