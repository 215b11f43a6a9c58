//! Rotations about the origin.

use vstd::prelude::*;
use crate::binary32;
use crate::binary32::same;
use crate::complex::Complex;
use crate::re::Real;

verus! {

/// The rotation about the origin by `angle` radians. It carries the angle
/// only, and no real or imaginary part.
#[derive(Debug)]
pub struct Rotor {
    pub angle: u32,
}

impl PartialEq<Real> for Rotor {
    fn eq(&self, other: &Real) -> (e: bool)
        ensures
            e == same(self.angle, other.r),
    {
        binary32::eq(self.angle, other.re())
    }
}

impl vstd::std_specs::cmp::PartialEqSpecImpl<Real> for Rotor {
    open spec fn obeys_eq_spec() -> bool {
        true
    }

    /// A rotor equals a real number where its angle numerically equals that
    /// number.
    open spec fn eq_spec(&self, other: &Real) -> bool {
        same(self.angle, other.r)
    }
}

} // verus!
