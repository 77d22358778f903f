//! The ways in which an operation of this library can fail.

use vstd::prelude::*;

verus! {

/// Why an operation could not produce its result.
#[derive(Clone, Copy, Debug, PartialEq, Eq, Structural)]
pub enum EcError {
    /// A modular inverse was asked of a number that shares a factor with
    /// the modulus.
    NoInverse,
    /// A square root was asked of a number that is no square.
    NotQuadraticResidue,
    /// A point was to be multiplied by a scalar below one.
    InvalidScalar,
    /// A signature component lies outside `[1, n-1]`.
    InvalidSignatureComponent,
    /// Every nonce that was drawn led to a zero signature component.
    SigningRetryExhausted,
    /// The slope of the line through two points has no value because its
    /// denominator has no inverse.
    UndefinedSlope,
}

} // verus!
