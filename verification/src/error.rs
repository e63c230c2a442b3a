//! The ways in which an operation can refuse its arguments.

use vstd::prelude::*;

verus! {

/// Why an operation on polynomials failed.
#[derive(Clone, Copy, Debug, PartialEq, Eq, Structural)]
pub enum ArithError {
    /// The divisor is the zero polynomial.
    DivisionByZero,
    /// A modular operation was given a modulus that is constant or not monic,
    /// or an operand whose degree is not below that of the modulus.
    BadArguments,
    /// The remainder or the quotient of a division has coefficients that are
    /// not integers.
    NotIntegral,
    /// The constant term of a polynomial to invert is neither `1` nor `-1`.
    NonInvertible,
    /// A length or a precision is negative.
    NegativeLength,
    /// The sampler gave too many samples in a row that had to be thrown
    /// away.
    SamplerExhausted,
}

} // verus!
