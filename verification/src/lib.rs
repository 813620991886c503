//! Arbitrary-precision unsigned and signed integer arithmetic over
//! little-endian vectors of 32-bit digits, with radix conversion.

use vstd::prelude::*;

pub mod values;
pub mod biguint;
pub mod addition;
pub mod subtraction;
pub mod multiplication;
pub mod division;
pub mod bigint;
pub mod convert;

pub use biguint::BigUint;
pub use bigint::BigInt;
pub use bigint::Sign;

verus! {

/// Error reported when parsing a textual number fails: either the input held
/// no digits at all, or a character is not a digit of the requested radix.
#[derive(Clone, Copy, Debug, PartialEq, Eq, Structural)]
pub enum ParseBigIntError {
    Empty,
    InvalidDigit,
}

} // verus!
