//! Exact arithmetic on dense integer polynomials and a table-driven discrete
//! Gaussian sampler, the two building blocks of a ring-based public-key
//! encryption scheme.
//!
//! Polynomials are values of [`zzx::ZZX`]; their coefficients are integers of
//! any size. What an operation returns is said over the sequence of
//! coefficients of its operands, with the vocabulary of [`poly`].
//!
//! - [`linear`]: sums, differences, shifts, truncation.
//! - [`operators`]: the operators `+`, `-`, `*`, `/`, `%`, `<<` and `>>` on
//!   polynomials.
//! - [`product`]: multiplication and squaring.
//! - [`pseudo`], [`exact`], [`division`]: pseudo-division, exact division and
//!   division with remainder.
//! - [`content`], [`gcd`]: contents, primitive parts and greatest common
//!   divisors.
//! - [`modular`]: arithmetic modulo a monic polynomial.
//! - [`inverse`]: inverses of power series.
//! - [`trace`]: traces modulo a monic polynomial.
//! - [`sampling`]: the sampler.
//! - [`encryption_scheme`]: key generation, encryption and decryption.
//! - [`zz_p`]: the modulus of the integers modulo `p`.
//! - [`error`]: the ways in which an operation can fail.
//!
//! [`integer`] states what is taken for granted of the integers, [`random`]
//! what is taken for granted of the random bits: nothing. [`series`],
//! [`numbers`] and [`gauss`] hold the mathematics that the proofs rest on.

pub mod content;
pub mod division;
pub mod encryption_scheme;
pub mod error;
pub mod exact;
pub mod gauss;
pub mod gcd;
pub mod integer;
pub mod inverse;
pub mod linear;
pub mod modular;
pub mod numbers;
pub mod operators;
pub mod poly;
pub mod product;
pub mod pseudo;
pub mod random;
pub mod sampling;
pub mod series;
pub mod trace;
pub mod zz_p;
pub mod zzx;
