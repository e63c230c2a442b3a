//! The arithmetic operators of polynomials: `+`, `-`, `*`, `/`, `%`, `<<`,
//! `>>` and the negation, with their assigning forms.
//!
//! Every operator is one call of the function that carries the same
//! operation, and states the same result. Two values that hold the same
//! polynomial need not be the same value, so no spec function can name the
//! value that an operator returns: each operator states the coefficients of
//! its result instead, and declares that it does not go by a spec function.
//!
//! An operator cannot report a failure. Where the function behind it can
//! fail, the operator asks of its operands that it does not.

use crate::content::{div_with_integer, is_scaled};
use crate::division::{const_rem, is_division, is_remainder};
use crate::integer::val;
use crate::linear::{left_shift, negate, right_shift};
use crate::numbers::all_divisible;
use crate::poly::{
    is_normalized, poly_add, poly_left_shift, poly_mul, poly_neg, poly_right_shift, poly_sub,
};
use crate::product::product_fits;
use crate::zzx::{fits, ZZX};
use rug::ops::NegAssign;
use rug::Integer;
use std::ops::{
    Add, AddAssign, Div, Mul, MulAssign, Neg, Rem, Shl, ShlAssign, Shr, ShrAssign, Sub, SubAssign,
};
use vstd::pervasive::unreached;
use vstd::prelude::*;
use vstd::std_specs::ops::{
    AddSpecImpl, DivSpecImpl, MulSpecImpl, NegSpecImpl, RemSpecImpl, ShlSpecImpl, ShrSpecImpl,
    SubSpecImpl,
};

verus! {

/// Whether `a` can be divided by `b` with a quotient and a remainder of
/// integer coefficients.
pub open spec fn has_division(a: Seq<int>, b: Seq<int>) -> bool {
    b.len() > 0 && exists|q: Seq<int>, r: Seq<int>| #[trigger] is_division(a, b, q, r)
}

/// Whether `a` has a remainder of integer coefficients by `b`.
pub open spec fn has_remainder(a: Seq<int>, b: Seq<int>) -> bool {
    b.len() > 0 && exists|r: Seq<int>| #[trigger] is_remainder(a, b, r)
}

/// Whether `a * X^n` can be held.
pub open spec fn shift_fits(a: Seq<int>, n: int) -> bool {
    n > 0 && a.len() > 0 ==> fits(a.len() + n)
}

/// The operator below states its result itself: no spec function names it.
impl AddSpecImpl<ZZX> for ZZX {
    open spec fn obeys_add_spec() -> bool {
        false
    }

    open spec fn add_req(self, rhs: ZZX) -> bool {
        true
    }

    open spec fn add_spec(self, rhs: ZZX) -> ZZX {
        self
    }
}

/// The sum of two polynomials.
impl Add<ZZX> for ZZX {
    type Output = ZZX;

    fn add(self, rhs: ZZX) -> (r: ZZX)
        ensures
            r@ == poly_add(self@, rhs@),
            is_normalized(r@),
    {
        let mut x = ZZX::new();
        crate::linear::add(&mut x, &self, &rhs);
        x
    }
}

/// The operator below states its result itself: no spec function names it.
impl AddSpecImpl<&ZZX> for ZZX {
    open spec fn obeys_add_spec() -> bool {
        false
    }

    open spec fn add_req(self, rhs: &ZZX) -> bool {
        true
    }

    open spec fn add_spec(self, rhs: &ZZX) -> ZZX {
        self
    }
}

/// The sum of two polynomials.
impl Add<&ZZX> for ZZX {
    type Output = ZZX;

    fn add(self, rhs: &ZZX) -> (r: ZZX)
        ensures
            r@ == poly_add(self@, rhs@),
            is_normalized(r@),
    {
        let mut x = ZZX::new();
        crate::linear::add(&mut x, &self, rhs);
        x
    }
}

/// The operator below states its result itself: no spec function names it.
impl AddSpecImpl<ZZX> for &ZZX {
    open spec fn obeys_add_spec() -> bool {
        false
    }

    open spec fn add_req(self, rhs: ZZX) -> bool {
        true
    }

    open spec fn add_spec(self, rhs: ZZX) -> ZZX {
        *self
    }
}

/// The sum of two polynomials.
impl Add<ZZX> for &ZZX {
    type Output = ZZX;

    fn add(self, rhs: ZZX) -> (r: ZZX)
        ensures
            r@ == poly_add(self@, rhs@),
            is_normalized(r@),
    {
        let mut x = ZZX::new();
        crate::linear::add(&mut x, self, &rhs);
        x
    }
}

/// The operator below states its result itself: no spec function names it.
impl AddSpecImpl<&ZZX> for &ZZX {
    open spec fn obeys_add_spec() -> bool {
        false
    }

    open spec fn add_req(self, rhs: &ZZX) -> bool {
        true
    }

    open spec fn add_spec(self, rhs: &ZZX) -> ZZX {
        *self
    }
}

/// The sum of two polynomials.
impl Add<&ZZX> for &ZZX {
    type Output = ZZX;

    fn add(self, rhs: &ZZX) -> (r: ZZX)
        ensures
            r@ == poly_add(self@, rhs@),
            is_normalized(r@),
    {
        let mut x = ZZX::new();
        crate::linear::add(&mut x, self, rhs);
        x
    }
}

/// `self = self + rhs`.
impl AddAssign for ZZX {
    fn add_assign(&mut self, rhs: ZZX)
        ensures
            final(self)@ == poly_add(old(self)@, rhs@),
            is_normalized(final(self)@),
    {
        let mut x = ZZX::new();
        crate::linear::add(&mut x, self, &rhs);
        *self = x;
    }
}

/// The operator below states its result itself: no spec function names it.
impl SubSpecImpl<ZZX> for ZZX {
    open spec fn obeys_sub_spec() -> bool {
        false
    }

    open spec fn sub_req(self, rhs: ZZX) -> bool {
        true
    }

    open spec fn sub_spec(self, rhs: ZZX) -> ZZX {
        self
    }
}

/// The difference of two polynomials.
impl Sub<ZZX> for ZZX {
    type Output = ZZX;

    fn sub(self, rhs: ZZX) -> (r: ZZX)
        ensures
            r@ == poly_sub(self@, rhs@),
            is_normalized(r@),
    {
        let mut x = ZZX::new();
        crate::linear::sub(&mut x, &self, &rhs);
        x
    }
}

/// The operator below states its result itself: no spec function names it.
impl SubSpecImpl<&ZZX> for ZZX {
    open spec fn obeys_sub_spec() -> bool {
        false
    }

    open spec fn sub_req(self, rhs: &ZZX) -> bool {
        true
    }

    open spec fn sub_spec(self, rhs: &ZZX) -> ZZX {
        self
    }
}

/// The difference of two polynomials.
impl Sub<&ZZX> for ZZX {
    type Output = ZZX;

    fn sub(self, rhs: &ZZX) -> (r: ZZX)
        ensures
            r@ == poly_sub(self@, rhs@),
            is_normalized(r@),
    {
        let mut x = ZZX::new();
        crate::linear::sub(&mut x, &self, rhs);
        x
    }
}

/// The operator below states its result itself: no spec function names it.
impl SubSpecImpl<ZZX> for &ZZX {
    open spec fn obeys_sub_spec() -> bool {
        false
    }

    open spec fn sub_req(self, rhs: ZZX) -> bool {
        true
    }

    open spec fn sub_spec(self, rhs: ZZX) -> ZZX {
        *self
    }
}

/// The difference of two polynomials.
impl Sub<ZZX> for &ZZX {
    type Output = ZZX;

    fn sub(self, rhs: ZZX) -> (r: ZZX)
        ensures
            r@ == poly_sub(self@, rhs@),
            is_normalized(r@),
    {
        let mut x = ZZX::new();
        crate::linear::sub(&mut x, self, &rhs);
        x
    }
}

/// The operator below states its result itself: no spec function names it.
impl SubSpecImpl<&ZZX> for &ZZX {
    open spec fn obeys_sub_spec() -> bool {
        false
    }

    open spec fn sub_req(self, rhs: &ZZX) -> bool {
        true
    }

    open spec fn sub_spec(self, rhs: &ZZX) -> ZZX {
        *self
    }
}

/// The difference of two polynomials.
impl Sub<&ZZX> for &ZZX {
    type Output = ZZX;

    fn sub(self, rhs: &ZZX) -> (r: ZZX)
        ensures
            r@ == poly_sub(self@, rhs@),
            is_normalized(r@),
    {
        let mut x = ZZX::new();
        crate::linear::sub(&mut x, self, rhs);
        x
    }
}

/// `self = self - rhs`.
impl SubAssign for ZZX {
    fn sub_assign(&mut self, rhs: ZZX)
        ensures
            final(self)@ == poly_sub(old(self)@, rhs@),
            is_normalized(final(self)@),
    {
        let mut x = ZZX::new();
        crate::linear::sub(&mut x, self, &rhs);
        *self = x;
    }
}

/// The operator below states its result itself: no spec function names it.
impl NegSpecImpl for ZZX {
    open spec fn obeys_neg_spec() -> bool {
        false
    }

    open spec fn neg_req(self) -> bool {
        true
    }

    open spec fn neg_spec(self) -> ZZX {
        self
    }
}

/// The polynomial with every coefficient negated.
impl Neg for ZZX {
    type Output = ZZX;

    fn neg(self) -> (r: ZZX)
        ensures
            r@ == poly_neg(self@),
            is_normalized(r@),
    {
        let mut x = ZZX::new();
        negate(&mut x, &self);
        x
    }
}

/// `self = -self`.
impl NegAssign for ZZX {
    fn neg_assign(&mut self)
        ensures
            final(self)@ == poly_neg(old(self)@),
            is_normalized(final(self)@),
    {
        let mut x = ZZX::new();
        negate(&mut x, self);
        *self = x;
    }
}

/// What the operator below asks of its operands. The operator states its
/// result itself: no spec function names it.
impl MulSpecImpl<ZZX> for ZZX {
    open spec fn obeys_mul_spec() -> bool {
        false
    }

    open spec fn mul_req(self, rhs: ZZX) -> bool {
        product_fits(self@.len(), rhs@.len())
    }

    open spec fn mul_spec(self, rhs: ZZX) -> ZZX {
        self
    }
}

/// The product of two polynomials, which has to fit.
impl Mul<ZZX> for ZZX {
    type Output = ZZX;

    fn mul(self, rhs: ZZX) -> (r: ZZX)
        ensures
            r@ == poly_mul(self@, rhs@),
            is_normalized(r@),
    {
        let mut x = ZZX::new();
        crate::product::mul(&mut x, &self, &rhs);
        x
    }
}

/// What the operator below asks of its operands. The operator states its
/// result itself: no spec function names it.
impl MulSpecImpl<&ZZX> for &ZZX {
    open spec fn obeys_mul_spec() -> bool {
        false
    }

    open spec fn mul_req(self, rhs: &ZZX) -> bool {
        product_fits(self@.len(), rhs@.len())
    }

    open spec fn mul_spec(self, rhs: &ZZX) -> ZZX {
        *self
    }
}

/// The product of two polynomials, which has to fit.
impl Mul<&ZZX> for &ZZX {
    type Output = ZZX;

    fn mul(self, rhs: &ZZX) -> (r: ZZX)
        ensures
            r@ == poly_mul(self@, rhs@),
            is_normalized(r@),
    {
        let mut x = ZZX::new();
        crate::product::mul(&mut x, self, rhs);
        x
    }
}

/// `self = self * rhs`, which has to fit.
impl MulAssign for ZZX {
    fn mul_assign(&mut self, rhs: ZZX)
        requires
            product_fits(old(self)@.len(), rhs@.len()),
        ensures
            final(self)@ == poly_mul(old(self)@, rhs@),
            is_normalized(final(self)@),
    {
        let mut x = ZZX::new();
        crate::product::mul(&mut x, self, &rhs);
        *self = x;
    }
}

/// What the operator below asks of its operands. The operator states its
/// result itself: no spec function names it.
impl DivSpecImpl<ZZX> for ZZX {
    open spec fn obeys_div_spec() -> bool {
        false
    }

    open spec fn div_req(self, rhs: ZZX) -> bool {
        has_division(self@, rhs@)
    }

    open spec fn div_spec(self, rhs: ZZX) -> ZZX {
        self
    }
}

/// The quotient of the division with remainder, which has to exist.
impl Div<ZZX> for ZZX {
    type Output = ZZX;

    fn div(self, rhs: ZZX) -> (r: ZZX)
        ensures
            exists|x: Seq<int>| #[trigger] is_division(self@, rhs@, r@, x),
    {
        let mut q = ZZX::new();
        match crate::division::div(&mut q, &self, &rhs) {
            Ok(_) => q,
            Err(_) => unreached(),
        }
    }
}

/// What the operator below asks of its operands. The operator states its
/// result itself: no spec function names it.
impl DivSpecImpl<Integer> for ZZX {
    open spec fn obeys_div_spec() -> bool {
        false
    }

    open spec fn div_req(self, rhs: Integer) -> bool {
        val(rhs) != 0 && all_divisible(val(rhs), self@)
    }

    open spec fn div_spec(self, rhs: Integer) -> ZZX {
        self
    }
}

/// The quotient by an integer other than zero, which has to divide every
/// coefficient.
impl Div<Integer> for ZZX {
    type Output = ZZX;

    fn div(self, rhs: Integer) -> (r: ZZX)
        ensures
            is_scaled(self@, r@, val(rhs)),
            is_normalized(r@),
    {
        let mut q = ZZX::new();
        match div_with_integer(&mut q, &self, &rhs) {
            Ok(_) => q,
            Err(_) => unreached(),
        }
    }
}

/// What the operator below asks of its operands. The operator states its
/// result itself: no spec function names it.
impl RemSpecImpl<ZZX> for ZZX {
    open spec fn obeys_rem_spec() -> bool {
        false
    }

    open spec fn rem_req(self, rhs: ZZX) -> bool {
        has_remainder(self@, rhs@)
    }

    open spec fn rem_spec(self, rhs: ZZX) -> ZZX {
        self
    }
}

/// The remainder of the division, which has to exist.
impl Rem<ZZX> for ZZX {
    type Output = ZZX;

    fn rem(self, rhs: ZZX) -> (r: ZZX)
        ensures
            is_remainder(self@, rhs@, r@),
    {
        let mut x = ZZX::new();
        match crate::division::rem(&mut x, &self, &rhs) {
            Ok(_) => x,
            Err(_) => unreached(),
        }
    }
}

/// What the operator below asks of its operands. The operator states its
/// result itself: no spec function names it.
impl RemSpecImpl<Integer> for ZZX {
    open spec fn obeys_rem_spec() -> bool {
        false
    }

    open spec fn rem_req(self, rhs: Integer) -> bool {
        val(rhs) != 0
    }

    open spec fn rem_spec(self, rhs: Integer) -> ZZX {
        self
    }
}

/// The remainder by an integer other than zero: the zero polynomial.
impl Rem<Integer> for ZZX {
    type Output = ZZX;

    fn rem(self, rhs: Integer) -> (r: ZZX)
        ensures
            r@ == Seq::<int>::empty(),
    {
        let mut x = ZZX::new();
        match const_rem(&mut x, &self, &rhs) {
            Ok(_) => x,
            Err(_) => unreached(),
        }
    }
}

/// What the operator below asks of its operands. The operator states its
/// result itself: no spec function names it.
impl ShlSpecImpl<i64> for ZZX {
    open spec fn obeys_shl_spec() -> bool {
        false
    }

    open spec fn shl_req(self, rhs: i64) -> bool {
        shift_fits(self@, rhs as int)
    }

    open spec fn shl_spec(self, rhs: i64) -> ZZX {
        self
    }
}

/// `self * X^rhs`, which has to fit.
impl Shl<i64> for ZZX {
    type Output = ZZX;

    fn shl(self, rhs: i64) -> (r: ZZX)
        ensures
            r@ == poly_left_shift(self@, rhs as int),
            is_normalized(r@),
    {
        left_shift(&self, rhs)
    }
}

/// `self = self * X^rhs`, which has to fit.
impl ShlAssign<i64> for ZZX {
    fn shl_assign(&mut self, rhs: i64)
        requires
            shift_fits(old(self)@, rhs as int),
        ensures
            final(self)@ == poly_left_shift(old(self)@, rhs as int),
            is_normalized(final(self)@),
    {
        let x = left_shift(self, rhs);
        *self = x;
    }
}

/// What the operator below asks of its operands. The operator states its
/// result itself: no spec function names it.
impl ShrSpecImpl<i64> for ZZX {
    open spec fn obeys_shr_spec() -> bool {
        false
    }

    open spec fn shr_req(self, rhs: i64) -> bool {
        shift_fits(self@, -(rhs as int))
    }

    open spec fn shr_spec(self, rhs: i64) -> ZZX {
        self
    }
}

/// `self div X^rhs`, which has to fit.
impl Shr<i64> for ZZX {
    type Output = ZZX;

    fn shr(self, rhs: i64) -> (r: ZZX)
        ensures
            r@ == poly_right_shift(self@, rhs as int),
            is_normalized(r@),
    {
        right_shift(&self, rhs)
    }
}

/// `self = self div X^rhs`, which has to fit.
impl ShrAssign<i64> for ZZX {
    fn shr_assign(&mut self, rhs: i64)
        requires
            shift_fits(old(self)@, -(rhs as int)),
        ensures
            final(self)@ == poly_right_shift(old(self)@, rhs as int),
            is_normalized(final(self)@),
    {
        let x = right_shift(self, rhs);
        *self = x;
    }
}

} // verus!
