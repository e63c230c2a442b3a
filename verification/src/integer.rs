//! Arbitrary-precision integers.
//!
//! The coefficients of every polynomial are `rug::Integer` values. The
//! verifier cannot look inside such a value, so this module gives it a
//! mathematical meaning, [`val`], and states for each operation of `rug` that
//! the library uses what the operation does to that meaning. These statements
//! are taken on trust: each restates the documentation of the operation that
//! it wraps.

use crate::numbers::{abs, bit_length, divides, is_gcd_of};
use rug::Integer;
use vstd::arithmetic::power::pow;
use vstd::prelude::*;

verus! {

/// `rug::Integer`, an integer of any size. Nothing is known of what it is
/// made of.
#[verifier::external_type_specification]
#[verifier::external_body]
pub struct ExInteger(rug::Integer);

/// The mathematical integer that a big integer holds.
pub uninterp spec fn val(x: Integer) -> int;

/// The numbers that a sequence of big integers holds, in order.
pub open spec fn vals(s: Seq<Integer>) -> Seq<int> {
    Seq::new(s.len(), |i: int| val(s[i]))
}

/// The numbers held after one more big integer is appended.
pub proof fn lemma_vals_push(s: Seq<Integer>, x: Integer)
    ensures
        vals(s.push(x)) == vals(s).push(val(x)),
{
    assert(vals(s.push(x)) =~= vals(s).push(val(x)));
}

/// The numbers held after one big integer is replaced.
pub proof fn lemma_vals_update(s: Seq<Integer>, i: int, x: Integer)
    requires
        0 <= i < s.len(),
    ensures
        vals(s.update(i, x)) == vals(s).update(i, val(x)),
{
    assert(vals(s.update(i, x)) =~= vals(s).update(i, val(x)));
}

/// `Integer::from` on an `i64`: the result holds the same number.
#[verifier::external_body]
pub(crate) fn int_from_i64(v: i64) -> (r: Integer)
    ensures
        val(r) == v,
{
    Integer::from(v)
}

/// `Integer::from` on a `u64`: the result holds the same number.
#[verifier::external_body]
pub(crate) fn int_from_u64(v: u64) -> (r: Integer)
    ensures
        val(r) == v,
{
    Integer::from(v)
}

/// `Integer::clone`: the copy holds the same number.
pub assume_specification[ <Integer as Clone>::clone ](a: &Integer) -> (r: Integer)
    ensures
        val(r) == val(*a),
;

/// `&Integer + &Integer`: the exact sum.
#[verifier::external_body]
pub(crate) fn int_add(a: &Integer, b: &Integer) -> (r: Integer)
    ensures
        val(r) == val(*a) + val(*b),
{
    Integer::from(a + b)
}

/// `&Integer - &Integer`: the exact difference.
#[verifier::external_body]
pub(crate) fn int_sub(a: &Integer, b: &Integer) -> (r: Integer)
    ensures
        val(r) == val(*a) - val(*b),
{
    Integer::from(a - b)
}

/// `&Integer * &Integer`: the exact product.
#[verifier::external_body]
pub(crate) fn int_mul(a: &Integer, b: &Integer) -> (r: Integer)
    ensures
        val(r) == val(*a) * val(*b),
{
    Integer::from(a * b)
}

/// `-&Integer`: the exact negation.
#[verifier::external_body]
pub(crate) fn int_neg(a: &Integer) -> (r: Integer)
    ensures
        val(r) == -val(*a),
{
    Integer::from(-a)
}

/// `Integer::div_rem_ref`: division that truncates towards zero. The
/// remainder is smaller in magnitude than the divisor and has the sign of the
/// dividend. `rug` panics on a zero divisor, which the precondition excludes.
#[verifier::external_body]
pub(crate) fn int_div_rem(a: &Integer, b: &Integer) -> (qr: (Integer, Integer))
    requires
        val(*b) != 0,
    ensures
        val(*a) == val(qr.0) * val(*b) + val(qr.1),
        abs(val(qr.1)) < abs(val(*b)),
        val(*a) >= 0 ==> val(qr.1) >= 0,
        val(*a) <= 0 ==> val(qr.1) <= 0,
{
    a.div_rem_ref(b).into()
}

/// `Integer::gcd_ref`: the greatest common divisor, which is never negative
/// and is zero only when both arguments are zero.
#[verifier::external_body]
pub(crate) fn int_gcd(a: &Integer, b: &Integer) -> (r: Integer)
    ensures
        is_gcd_of(val(r), val(*a), val(*b)),
{
    Integer::from(a.gcd_ref(b))
}

/// `Pow<u32>` for `&Integer`: the exact power, with `0^0 = 1`.
#[verifier::external_body]
pub(crate) fn int_pow(a: &Integer, e: u32) -> (r: Integer)
    ensures
        val(r) == pow(val(*a), e as nat),
{
    Integer::from(rug::ops::Pow::pow(a, e))
}

/// `Integer == i64`: whether the big integer holds the given number.
#[verifier::external_body]
pub(crate) fn int_is(a: &Integer, v: i64) -> (r: bool)
    ensures
        r == (val(*a) == v),
{
    *a == v
}

/// `Integer < i64`: whether the big integer holds less than the given number.
#[verifier::external_body]
pub(crate) fn int_below(a: &Integer, v: i64) -> (r: bool)
    ensures
        r == (val(*a) < v),
{
    *a < v
}

/// `Integer == Integer`: whether both hold the same number.
#[verifier::external_body]
pub(crate) fn int_eq(a: &Integer, b: &Integer) -> (r: bool)
    ensures
        r == (val(*a) == val(*b)),
{
    a == b
}

/// `Integer < Integer`: the order of the numbers held.
#[verifier::external_body]
pub(crate) fn int_lt(a: &Integer, b: &Integer) -> (r: bool)
    ensures
        r == (val(*a) < val(*b)),
{
    a < b
}

/// `Integer::significant_bits`: the number of binary digits of the absolute
/// value. `rug` panics where that number does not fit a `u32`, which the
/// precondition excludes.
#[verifier::external_body]
pub(crate) fn int_bits(a: &Integer) -> (r: u32)
    requires
        bit_length(abs(val(*a))) <= u32::MAX,
    ensures
        r == bit_length(abs(val(*a))),
{
    a.significant_bits()
}

/// `Integer::significant_digits::<bool>`: the number of binary digits of the
/// absolute value, as a `usize`. It fits whatever the number is: the library
/// underneath holds no number of more binary digits than an `unsigned long`
/// can count on a machine of 32 bits, and none of more than `2^31` words on
/// one of 64 bits.
#[verifier::external_body]
pub(crate) fn int_bit_count(a: &Integer) -> (r: usize)
    ensures
        r == bit_length(abs(val(*a))),
{
    a.significant_digits::<bool>()
}

/// `Integer::is_divisible`: whether the divisor divides the number. A zero
/// divisor is allowed and divides only zero.
#[verifier::external_body]
pub(crate) fn int_divisible(a: &Integer, b: &Integer) -> (r: bool)
    ensures
        r == divides(val(*b), val(*a)),
{
    a.is_divisible(b)
}

} // verus!
