//! The complex exponential of an imaginary number.

use vstd::prelude::*;
use crate::complex::Complex;
use crate::im::Im;
use crate::rotor::Rotor;

verus! {

/// The exponential of `i·j`: the rotation by `i` radians.
pub fn exp(i: Im) -> (rotor: Rotor)
    ensures
        rotor.angle == i.i,
{
    Rotor { angle: i.im() }
}

} // verus!
