//! Complex numbers in Cartesian and polar form over IEEE 754 binary32 scalars.
//!
//! Every scalar that enters or leaves this library is a `u32` holding the
//! encoding of a binary32 number. The library computes on the encodings in
//! integer arithmetic. Sums, products, quotients and square roots are the
//! exact results rounded to the nearest number, ties to the even encoding;
//! the remainder of an angle after whole turns is exact. Where a result is
//! not a number it is the one quiet NaN `binary32::NAN`.
//!
//! The arctangent, the cosine and the sine have no exact definition to hold
//! an implementation to. Where a result needs one of them, the caller hands
//! it in: `Cartesian::argument` takes the arctangent of the tangent, and
//! `Polar::re` and `Polar::im` take the cosine and the sine of the argument.

pub mod angle;
pub mod arithmetic;
pub mod binary32;
pub mod complex;
pub mod exp;
pub mod im;
pub mod re;
pub mod root;
pub mod rotor;
pub mod rounding;
