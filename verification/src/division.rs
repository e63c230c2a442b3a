//! Division with remainder over the integers.
//!
//! A quotient and a remainder with integer coefficients always exist where
//! the leading coefficient of the divisor is `1` or `-1`. For other divisors
//! they are the ones of the division with rational coefficients, where those
//! happen to have integer coefficients.

use crate::content::{divide_with_integer, is_scaled};
use crate::error::ArithError;
use crate::exact::{divide, divide_, is_product};
use crate::integer::{int_is, val};
use crate::linear::negate;
use crate::numbers::{all_divisible, divides};
use crate::poly::{
    coeff, coeffs_of, conv, conv_term, is_normalized, lead, lemma_conv_constant, lemma_conv_scale,
    lemma_conv_window, lemma_conv_zero, lemma_normalized, longer, normalized, poly_neg,
};
use crate::pseudo::{lemma_pow_nonzero, plain_pseudo_div_rem, power, pseudo_division, pseudo_rem};
use crate::series::{lemma_cauchy_ext, lemma_cauchy_linear, lemma_cauchy_zero_above, sum_over};
use crate::zzx::ZZX;
use rug::Integer;
use vstd::arithmetic::power::{lemma1_pow, pow};
use vstd::prelude::*;

verus! {

/// `q` and `r` are the quotient and the remainder of `a` by `b`:
/// `a = q * b + r`, and the degree of `r` is below that of `b`.
pub open spec fn is_division(a: Seq<int>, b: Seq<int>, q: Seq<int>, r: Seq<int>) -> bool {
    &&& is_normalized(q)
    &&& is_normalized(r)
    &&& r.len() < b.len()
    &&& forall|n: int| #[trigger] coeff(a, n) == conv(q, b, n) + coeff(r, n)
}

/// `c * a = q * b + c * r`: the division of `a` by `b`, cleared of
/// denominators by the factor `c`.
pub open spec fn is_scaled_division(
    a: Seq<int>,
    b: Seq<int>,
    c: int,
    q: Seq<int>,
    r: Seq<int>,
) -> bool {
    forall|n: int| c * #[trigger] coeff(a, n) == conv(q, b, n) + c * coeff(r, n)
}

/// `r` is the remainder of `a` by `b`: its degree is below that of `b`, and
/// `a - r` is a multiple of `b` with rational coefficients, that is, some
/// integer multiple `c * (a - r)` with `c` other than zero is a multiple of `b`
/// with integer coefficients.
pub open spec fn is_remainder(a: Seq<int>, b: Seq<int>, r: Seq<int>) -> bool {
    &&& is_normalized(r)
    &&& r.len() < b.len()
    &&& exists|c: int, q: Seq<int>| c != 0 && #[trigger] is_scaled_division(a, b, c, q, r)
}

/// A pseudo-division by a polynomial with leading coefficient one is a
/// division.
proof fn lemma_monic_pseudo_division(a: Seq<int>, b: Seq<int>, q: Seq<int>, r: Seq<int>, k: nat)
    requires
        pseudo_division(a, b, q, r, k),
        lead(b) == 1,
    ensures
        is_division(a, b, q, r),
{
    lemma1_pow(k);
    assert forall|n: int| #[trigger] coeff(a, n) == conv(q, b, n) + coeff(r, n) by {
        assert(pow(lead(b), k) * coeff(a, n) == conv(q, b, n) + coeff(r, n));
    }
}

/// A division by `-b` is a division by `b` with the quotient negated.
proof fn lemma_division_negated(a: Seq<int>, b: Seq<int>, q: Seq<int>, r: Seq<int>)
    requires
        is_division(a, poly_neg(b), q, r),
    ensures
        is_division(a, b, poly_neg(q), r),
{
    assert forall|n: int| #[trigger] coeff(a, n) == conv(poly_neg(q), b, n) + coeff(r, n) by {
        assert(coeff(a, n) == conv(q, poly_neg(b), n) + coeff(r, n));
        lemma_conv_scale(q, b, q, poly_neg(b), 1, -1, n);
        lemma_conv_scale(q, b, poly_neg(q), b, -1, 1, n);
    }
}

/// A division is a scaled division with the factor one.
proof fn lemma_division_is_remainder(a: Seq<int>, b: Seq<int>, q: Seq<int>, r: Seq<int>)
    requires
        is_division(a, b, q, r),
    ensures
        is_remainder(a, b, r),
{
    assert forall|n: int| 1 * #[trigger] coeff(a, n) == conv(q, b, n) + 1 * coeff(r, n) by {
        assert(coeff(a, n) == conv(q, b, n) + coeff(r, n));
    }
    assert(is_scaled_division(a, b, 1, q, r));
}

/// The division of `a` by the constant `b`, where `b` is `1` or `-1`.
proof fn lemma_unit_constant_division(a: Seq<int>, b: Seq<int>)
    requires
        is_normalized(a),
        b.len() == 1,
        b[0] == 1 || b[0] == -1,
    ensures
        is_division(a, b, Seq::new(a.len(), |i: int| a[i] * b[0]), Seq::empty()),
{
    let q = Seq::new(a.len(), |i: int| a[i] * b[0]);
    assert forall|n: int|
        #[trigger] coeff(a, n) == conv(q, b, n) + coeff(Seq::<int>::empty(), n) by {
        lemma_conv_constant(q, b, n);
        assert(coeff(q, n) * b[0] == coeff(a, n)) by (nonlinear_arith)
            requires
                coeff(q, n) == coeff(a, n) * b[0],
                b[0] == 1 || b[0] == -1,
        ;
    }
}

/// The division by a polynomial of higher degree: the quotient is zero and
/// the remainder is the dividend.
proof fn lemma_small_division(a: Seq<int>, b: Seq<int>)
    requires
        is_normalized(a),
        a.len() < b.len(),
    ensures
        is_division(a, b, Seq::empty(), a),
{
    assert forall|n: int|
        #[trigger] coeff(a, n) == conv(Seq::<int>::empty(), b, n) + coeff(a, n) by {
        lemma_conv_zero(Seq::<int>::empty(), b, n);
    }
}

/// The degree of a factor: where the product `p * b` has no coefficients
/// above index `top` plus the degree of `b`, the factor `p` has none above
/// index `top`.
pub proof fn lemma_multiple_degree(p: Seq<int>, b: Seq<int>, top: int)
    requires
        is_normalized(b),
        b.len() > 0,
        top >= -1,
        forall|n: int| n > top + (b.len() - 1) ==> #[trigger] conv(p, b, n) == 0,
    ensures
        forall|j: int| j > top ==> #[trigger] coeff(p, j) == 0,
{
    let pn = normalized(p);
    lemma_normalized(p);
    if pn.len() - 1 > top {
        let last = pn.len() - 1;
        let db = b.len() - 1;
        let n = last + db;
        assert forall|j: int|
            0 <= j <= n implies #[trigger] coeffs_of(pn)(j) == coeffs_of(p)(j) by {
            assert(coeff(pn, j) == coeff(p, j));
        }
        lemma_cauchy_ext(coeffs_of(pn), coeffs_of(b), coeffs_of(p), coeffs_of(b), n);
        lemma_conv_window(pn, b, n, last, last + 1);
        let t = conv_term(pn, b, n);
        assert(sum_over(t, last, last + 1) == sum_over(t, last, last) + t(last));
        assert(conv(p, b, n) == 0);
        assert(pn[last] * b[db] != 0) by (nonlinear_arith)
            requires
                pn[last] != 0,
                b[db] != 0,
        ;
    }
    assert forall|j: int| j > top implies #[trigger] coeff(p, j) == 0 by {
        assert(coeff(pn, j) == coeff(p, j));
    }
}

/// A multiple of `b` whose degree is below that of `b` is zero: where
/// `p * b` has no coefficient from the degree of `b` on, `p` is zero.
pub proof fn lemma_small_multiple(p: Seq<int>, b: Seq<int>)
    requires
        is_normalized(b),
        b.len() > 0,
        forall|n: int| n >= b.len() - 1 ==> #[trigger] conv(p, b, n) == 0,
    ensures
        forall|j: int| coeff(p, j) == 0,
{
    lemma_multiple_degree(p, b, -1);
    assert forall|j: int| coeff(p, j) == 0 by {
        if j >= 0 {
            assert(coeff(p, j) == 0);
        }
    }
}

/// A division with remainder is unique, also where it is cleared of
/// denominators: from `m * a = q1 * b + r1` and `c * a = q2 * b + c * r2`,
/// with remainders of a degree below that of `b`, it follows that
/// `c * q1 = m * q2` and `c * r1 = c * m * r2`.
pub proof fn lemma_division_unique(
    a: Seq<int>,
    b: Seq<int>,
    m: int,
    q1: Seq<int>,
    r1: Seq<int>,
    c: int,
    q2: Seq<int>,
    r2: Seq<int>,
)
    requires
        is_normalized(b),
        b.len() > 0,
        r1.len() < b.len(),
        r2.len() < b.len(),
        forall|n: int| m * #[trigger] coeff(a, n) == conv(q1, b, n) + coeff(r1, n),
        forall|n: int| c * #[trigger] coeff(a, n) == conv(q2, b, n) + c * coeff(r2, n),
    ensures
        forall|n: int| c * #[trigger] coeff(q1, n) == m * coeff(q2, n),
        forall|n: int| c * #[trigger] coeff(r1, n) == c * (m * coeff(r2, n)),
{
    // p = c * q1 - m * q2
    let p = Seq::new(
        longer(q1.len(), q2.len()),
        |i: int| c * coeff(q1, i) + (-m) * coeff(q2, i),
    );
    assert forall|j: int| #[trigger] coeff(p, j) == c * coeff(q1, j) + (-m) * coeff(q2, j) by {
        if !(0 <= j < p.len()) {
            assert(c * 0 + (-m) * 0 == 0);
        }
    }
    assert forall|n: int| #[trigger] conv(p, b, n) == c * (m * coeff(r2, n)) - c * coeff(r1, n) by {
        assert forall|j: int| 0 <= j <= n implies #[trigger] coeffs_of(p)(j) == c * coeffs_of(q1)(j)
            + (-m) * coeffs_of(q2)(j) by {
            assert(coeff(p, j) == c * coeff(q1, j) + (-m) * coeff(q2, j));
        }
        lemma_cauchy_linear(
            coeffs_of(p),
            c,
            coeffs_of(q1),
            -m,
            coeffs_of(q2),
            coeffs_of(b),
            n,
        );
        let an = coeff(a, n);
        let x1 = conv(q1, b, n);
        let x2 = conv(q2, b, n);
        let y1 = coeff(r1, n);
        let y2 = coeff(r2, n);
        assert(m * an == x1 + y1);
        assert(c * an == x2 + c * y2);
        assert(c * (m * an) == c * x1 + c * y1) by (nonlinear_arith)
            requires
                m * an == x1 + y1,
        ;
        assert(m * (c * an) == m * x2 + m * (c * y2)) by (nonlinear_arith)
            requires
                c * an == x2 + c * y2,
        ;
        assert(c * (m * an) == m * (c * an)) by (nonlinear_arith);
        assert(m * (c * y2) == c * (m * y2)) by (nonlinear_arith);
        assert((-m) * x2 == -(m * x2)) by (nonlinear_arith);
        assert(conv(p, b, n) == c * x1 + (-m) * x2);
    }
    assert forall|n: int| n >= b.len() - 1 implies #[trigger] conv(p, b, n) == 0 by {
        assert(coeff(r1, n) == 0 && coeff(r2, n) == 0);
        assert(conv(p, b, n) == c * (m * coeff(r2, n)) - c * coeff(r1, n));
        assert(c * (m * 0) - c * 0 == 0) by (nonlinear_arith);
    }
    lemma_small_multiple(p, b);
    assert forall|n: int| c * #[trigger] coeff(q1, n) == m * coeff(q2, n) by {
        assert(coeff(p, n) == 0);
        assert(coeff(p, n) == c * coeff(q1, n) + (-m) * coeff(q2, n));
        assert((-m) * coeff(q2, n) == -(m * coeff(q2, n))) by (nonlinear_arith);
    }
    assert forall|n: int| c * #[trigger] coeff(r1, n) == c * (m * coeff(r2, n)) by {
        assert forall|j: int| 0 <= j <= n implies #[trigger] coeffs_of(p)(j) == 0 by {
            assert(coeff(p, j) == 0);
        }
        lemma_cauchy_zero_above(coeffs_of(p), coeffs_of(b), 0, n + 1, n);
        assert(conv(p, b, n) == c * (m * coeff(r2, n)) - c * coeff(r1, n));
    }
}

/// Where a remainder exists, the pseudo-remainder is a multiple of the power
/// of the leading coefficient that pseudo-division multiplies by.
pub proof fn lemma_remainder_divisible(
    a: Seq<int>,
    b: Seq<int>,
    q: Seq<int>,
    r: Seq<int>,
    k: nat,
    r2: Seq<int>,
)
    requires
        b.len() > 0,
        is_normalized(b),
        pseudo_division(a, b, q, r, k),
        is_remainder(a, b, r2),
    ensures
        all_divisible(pow(lead(b), k), r),
{
    let m = pow(lead(b), k);
    let (c, q2) = choose|c: int, q2: Seq<int>|
        c != 0 && #[trigger] is_scaled_division(a, b, c, q2, r2);
    assert forall|n: int| m * #[trigger] coeff(a, n) == conv(q, b, n) + coeff(r, n) by {
        assert(pow(lead(b), k) * coeff(a, n) == conv(q, b, n) + coeff(r, n));
    }
    assert forall|n: int| c * #[trigger] coeff(a, n) == conv(q2, b, n) + c * coeff(r2, n) by {}
    lemma_division_unique(a, b, m, q, r, c, q2, r2);
    assert forall|i: int| 0 <= i < r.len() implies divides(m, #[trigger] r[i]) by {
        assert(c * coeff(r, i) == c * (m * coeff(r2, i)));
        assert(r[i] == coeff(r2, i) * m) by (nonlinear_arith)
            requires
                c * r[i] == c * (m * coeff(r2, i)),
                c != 0,
        ;
    }
}

/// Where a division with remainder exists, the pseudo-quotient and the
/// pseudo-remainder are multiples of the power of the leading coefficient
/// that pseudo-division multiplies by.
pub proof fn lemma_division_divisible(
    a: Seq<int>,
    b: Seq<int>,
    q: Seq<int>,
    r: Seq<int>,
    k: nat,
    q2: Seq<int>,
    r2: Seq<int>,
)
    requires
        b.len() > 0,
        is_normalized(b),
        pseudo_division(a, b, q, r, k),
        is_division(a, b, q2, r2),
    ensures
        all_divisible(pow(lead(b), k), q),
        all_divisible(pow(lead(b), k), r),
{
    let m = pow(lead(b), k);
    assert forall|n: int| m * #[trigger] coeff(a, n) == conv(q, b, n) + coeff(r, n) by {
        assert(pow(lead(b), k) * coeff(a, n) == conv(q, b, n) + coeff(r, n));
    }
    assert forall|n: int| 1 * #[trigger] coeff(a, n) == conv(q2, b, n) + 1 * coeff(r2, n) by {
        assert(coeff(a, n) == conv(q2, b, n) + coeff(r2, n));
    }
    lemma_division_unique(a, b, m, q, r, 1, q2, r2);
    assert forall|i: int| 0 <= i < r.len() implies divides(m, #[trigger] r[i]) by {
        assert(1 * coeff(r, i) == 1 * (m * coeff(r2, i)));
        assert(r[i] == coeff(r2, i) * m) by (nonlinear_arith)
            requires
                r[i] == m * coeff(r2, i),
        ;
    }
    assert forall|i: int| 0 <= i < q.len() implies divides(m, #[trigger] q[i]) by {
        assert(1 * coeff(q, i) == m * coeff(q2, i));
        assert(q[i] == coeff(q2, i) * m) by (nonlinear_arith)
            requires
                q[i] == m * coeff(q2, i),
        ;
    }
}

/// Where a division by a constant exists, the constant divides every
/// coefficient of the dividend.
pub proof fn lemma_constant_division(a: Seq<int>, b: Seq<int>, q: Seq<int>, r: Seq<int>)
    requires
        b.len() == 1,
        is_division(a, b, q, r),
    ensures
        all_divisible(b[0], a),
{
    assert forall|i: int| 0 <= i < a.len() implies divides(b[0], #[trigger] a[i]) by {
        assert(coeff(a, i) == conv(q, b, i) + coeff(r, i));
        lemma_conv_constant(q, b, i);
        assert(a[i] == coeff(q, i) * b[0]);
    }
}

/// `r = a mod b` for an integer `b`: zero, whatever `a` is. Fails where `b`
/// is zero, and then leaves `r` as it is.
pub fn const_rem(r: &mut ZZX, a: &ZZX, b: &Integer) -> (res: Result<(), ArithError>)
    ensures
        res.is_ok() == (val(*b) != 0),
        match res {
            Ok(_) => final(r)@ == Seq::<int>::empty(),
            Err(e) => e == ArithError::DivisionByZero && *final(r) == *old(r),
        },
{
    if int_is(b, 0) {
        return Err(ArithError::DivisionByZero);
    }
    *r = ZZX::new();
    Ok(())
}

/// `q = a / b` and `r = 0` for an integer `b`. Fails where `b` is zero or
/// does not divide every coefficient of `a`, and then leaves `q` and `r` as
/// they are.
pub fn const_div_rem(q: &mut ZZX, r: &mut ZZX, a: &ZZX, b: &Integer) -> (res: Result<
    (),
    ArithError,
>)
    ensures
        res.is_ok() == (val(*b) != 0 && all_divisible(val(*b), a@)),
        match res {
            Ok(_) => {
                &&& final(r)@ == Seq::<int>::empty()
                &&& is_normalized(final(q)@)
                &&& is_scaled(a@, final(q)@, val(*b))
            },
            Err(e) => {
                &&& *final(q) == *old(q)
                &&& *final(r) == *old(r)
                &&& (e == ArithError::DivisionByZero) == (val(*b) == 0)
                &&& e == ArithError::DivisionByZero || e == ArithError::NotIntegral
            },
        },
{
    if int_is(b, 0) {
        return Err(ArithError::DivisionByZero);
    }
    if !divide_with_integer(q, a, b) {
        return Err(ArithError::NotIntegral);
    }
    *r = ZZX::new();
    Ok(())
}

/// `r = a mod b`: the remainder of the division of `a` by `b`.
///
/// Over the integers the division exists whenever the leading coefficient of
/// `b` is `1` or `-1`. For other divisors the remainder is the one of the
/// division with rational coefficients, where that remainder has integer
/// coefficients; where it has not, the call fails. It also fails where `b` is
/// zero. A call that fails leaves `r` as it is.
pub fn rem(r: &mut ZZX, a: &ZZX, b: &ZZX) -> (res: Result<(), ArithError>)
    ensures
        match res {
            Ok(_) => {
                &&& b@.len() > 0
                &&& is_remainder(a@, b@, final(r)@)
                &&& (lead(b@) == 1 || lead(b@) == -1) ==> exists|q: Seq<int>| #[trigger]
                    is_division(a@, b@, q, final(r)@)
            },
            Err(e) => {
                &&& *final(r) == *old(r)
                &&& (e == ArithError::DivisionByZero) == (b@.len() == 0)
                &&& e == ArithError::DivisionByZero || e == ArithError::NotIntegral
                &&& forall|x: Seq<int>| !is_remainder(a@, b@, x)
                &&& !(lead(b@) == 1 || lead(b@) == -1)
            },
        },
{
    let ap = a.coeffs_ref();
    let bp = b.coeffs_ref();
    let la: usize = ap.len();
    let lb: usize = bp.len();
    if lb == 0 {
        return Err(ArithError::DivisionByZero);
    }
    if la < lb {
        *r = a.clone();
        proof {
            lemma_small_division(a@, b@);
            lemma_division_is_remainder(a@, b@, Seq::empty(), a@);
        }
        return Ok(());
    }
    let lc: Integer = b.lead_coeff();
    if lb == 1 {
        let res = const_rem(r, a, &lc);
        proof {
            let c = b@[0];
            assert forall|n: int| c * #[trigger] coeff(a@, n) == conv(a@, b@, n) + c * coeff(
                Seq::<int>::empty(),
                n,
            ) by {
                lemma_conv_constant(a@, b@, n);
                assert(c * coeff(a@, n) == coeff(a@, n) * c) by (nonlinear_arith);
            }
            assert(is_scaled_division(a@, b@, c, a@, Seq::empty()));
            if c == 1 || c == -1 {
                lemma_unit_constant_division(a@, b@);
            }
        }
        return res;
    }
    if int_is(&lc, 1) {
        let res = pseudo_rem(r, a, b);
        proof {
            let k = res.unwrap();
            let q = choose|q: Seq<int>| #[trigger] pseudo_division(a@, b@, q, final(r)@, k as nat);
            lemma_monic_pseudo_division(a@, b@, q, final(r)@, k as nat);
            lemma_division_is_remainder(a@, b@, q, final(r)@);
        }
        return Ok(());
    }
    if int_is(&lc, -1) {
        let mut b1 = ZZX::new();
        negate(&mut b1, b);
        let res = pseudo_rem(r, a, &b1);
        proof {
            let k = res.unwrap();
            let q = choose|q: Seq<int>| #[trigger] pseudo_division(a@, b1@, q, final(r)@, k as nat);
            lemma_monic_pseudo_division(a@, b1@, q, final(r)@, k as nat);
            lemma_division_negated(a@, b@, q, final(r)@);
            lemma_division_is_remainder(a@, b@, poly_neg(q), final(r)@);
        }
        return Ok(());
    }
    if divide_(a, b) {
        *r = ZZX::new();
        proof {
            let q = choose|q: Seq<int>| #[trigger] is_product(a@, q, b@);
            assert forall|n: int| 1 * #[trigger] coeff(a@, n) == conv(q, b@, n) + 1 * coeff(
                Seq::<int>::empty(),
                n,
            ) by {
                assert(coeff(a@, n) == conv(q, b@, n));
            }
            assert(is_scaled_division(a@, b@, 1, q, Seq::empty()));
        }
        return Ok(());
    }
    let mut q1 = ZZX::new();
    let mut r1 = ZZX::new();
    let res = plain_pseudo_div_rem(&mut q1, &mut r1, a, b);
    let k: u64 = match res {
        Ok(k) => k,
        Err(e) => {
            return Err(e);
        },
    };
    let m: Integer = power(&lc, k);
    if !divide_with_integer(r, &r1, &m) {
        proof {
            assert forall|x: Seq<int>| !is_remainder(a@, b@, x) by {
                if is_remainder(a@, b@, x) {
                    lemma_remainder_divisible(a@, b@, q1@, r1@, k as nat, x);
                }
            }
        }
        return Err(ArithError::NotIntegral);
    }
    proof {
        let c = val(m);
        lemma_pow_nonzero(lead(b@), k as nat);
        assert forall|n: int| c * #[trigger] coeff(a@, n) == conv(q1@, b@, n) + c * coeff(
            final(r)@,
            n,
        ) by {
            assert(c * coeff(a@, n) == conv(q1@, b@, n) + coeff(r1@, n));
            if 0 <= n < r1@.len() {
                assert(final(r)@[n] * c == r1@[n]);
            }
            assert(coeff(final(r)@, n) * c == c * coeff(final(r)@, n)) by (nonlinear_arith);
        }
        assert(is_scaled_division(a@, b@, c, q1@, final(r)@));
    }
    Ok(())
}

/// `q = a div b` and `r = a mod b`: the division of `a` by `b` with
/// remainder, `a = q * b + r`.
///
/// Fails where `b` is zero, and where no quotient and remainder with integer
/// coefficients are found. A call that fails leaves `q` and `r` as they are.
pub fn div_rem(q: &mut ZZX, r: &mut ZZX, a: &ZZX, b: &ZZX) -> (res: Result<(), ArithError>)
    ensures
        match res {
            Ok(_) => b@.len() > 0 && is_division(a@, b@, final(q)@, final(r)@),
            Err(e) => {
                &&& *final(q) == *old(q)
                &&& *final(r) == *old(r)
                &&& (e == ArithError::DivisionByZero) == (b@.len() == 0)
                &&& e == ArithError::DivisionByZero || e == ArithError::NotIntegral
                &&& forall|x: Seq<int>, y: Seq<int>| !is_division(a@, b@, x, y)
            },
        },
{
    let ap = a.coeffs_ref();
    let bp = b.coeffs_ref();
    let la: usize = ap.len();
    let lb: usize = bp.len();
    if lb == 0 {
        return Err(ArithError::DivisionByZero);
    }
    if la < lb {
        *r = a.clone();
        *q = ZZX::new();
        proof {
            lemma_small_division(a@, b@);
        }
        return Ok(());
    }
    let lc: Integer = b.lead_coeff();
    if lb == 1 {
        match const_div_rem(q, r, a, &lc) {
            Ok(_) => {},
            Err(e) => {
                proof {
                    assert forall|x: Seq<int>, y: Seq<int>| !is_division(a@, b@, x, y) by {
                        if is_division(a@, b@, x, y) {
                            lemma_constant_division(a@, b@, x, y);
                        }
                    }
                }
                return Err(e);
            },
        }
        proof {
            assert forall|n: int| #[trigger] coeff(a@, n) == conv(final(q)@, b@, n) + coeff(
                Seq::<int>::empty(),
                n,
            ) by {
                lemma_conv_constant(final(q)@, b@, n);
                if 0 <= n < a@.len() {
                    assert(final(q)@[n] * b@[0] == a@[n]);
                }
            }
        }
        return Ok(());
    }
    if int_is(&lc, 1) {
        let res = plain_pseudo_div_rem(q, r, a, b);
        proof {
            lemma_monic_pseudo_division(a@, b@, final(q)@, final(r)@, res.unwrap() as nat);
        }
        return Ok(());
    }
    if int_is(&lc, -1) {
        let mut b1 = ZZX::new();
        negate(&mut b1, b);
        let mut q1 = ZZX::new();
        let res = plain_pseudo_div_rem(&mut q1, r, a, &b1);
        negate(q, &q1);
        proof {
            lemma_monic_pseudo_division(a@, b1@, q1@, final(r)@, res.unwrap() as nat);
            lemma_division_negated(a@, b@, q1@, final(r)@);
        }
        return Ok(());
    }
    if divide(q, a, b) {
        *r = ZZX::new();
        return Ok(());
    }
    let mut q1 = ZZX::new();
    let mut r1 = ZZX::new();
    let res = plain_pseudo_div_rem(&mut q1, &mut r1, a, b);
    let k: u64 = match res {
        Ok(k) => k,
        Err(e) => {
            return Err(e);
        },
    };
    let m: Integer = power(&lc, k);
    let mut q2 = ZZX::new();
    let mut r2 = ZZX::new();
    proof {
        assert forall|x: Seq<int>, y: Seq<int>| #[trigger]
            is_division(a@, b@, x, y) implies all_divisible(val(m), q1@) && all_divisible(
            val(m),
            r1@,
        ) by {
            lemma_division_divisible(a@, b@, q1@, r1@, k as nat, x, y);
        }
    }
    if !divide_with_integer(&mut q2, &q1, &m) {
        return Err(ArithError::NotIntegral);
    }
    if !divide_with_integer(&mut r2, &r1, &m) {
        return Err(ArithError::NotIntegral);
    }
    proof {
        let c = val(m);
        lemma_pow_nonzero(lead(b@), k as nat);
        assert forall|n: int| #[trigger] coeff(a@, n) == conv(q2@, b@, n) + coeff(r2@, n) by {
            assert(c * coeff(a@, n) == conv(q1@, b@, n) + coeff(r1@, n));
            assert forall|j: int| #[trigger] coeff(q1@, j) == c * coeff(q2@, j) by {
                if 0 <= j < q1@.len() {
                    assert(q2@[j] * c == q1@[j]);
                }
                assert(coeff(q2@, j) * c == c * coeff(q2@, j)) by (nonlinear_arith);
            }
            lemma_conv_scale(q2@, b@, q1@, b@, c, 1, n);
            if 0 <= n < r1@.len() {
                assert(r2@[n] * c == r1@[n]);
            }
            assert(coeff(r1@, n) == c * coeff(r2@, n)) by (nonlinear_arith)
                requires
                    coeff(r2@, n) * c == coeff(r1@, n),
            ;
            assert(coeff(a@, n) == conv(q2@, b@, n) + coeff(r2@, n)) by (nonlinear_arith)
                requires
                    c != 0,
                    c * coeff(a@, n) == c * 1 * conv(q2@, b@, n) + c * coeff(r2@, n),
            ;
        }
    }
    *q = q2;
    *r = r2;
    Ok(())
}

/// `q = a div b`: the quotient of the division of `a` by `b` with remainder.
///
/// Fails where `b` is zero, and where no quotient and remainder with integer
/// coefficients are found. A call that fails leaves `q` as it is.
pub fn div(q: &mut ZZX, a: &ZZX, b: &ZZX) -> (res: Result<(), ArithError>)
    ensures
        match res {
            Ok(_) => b@.len() > 0
                && exists|r: Seq<int>| #[trigger] is_division(a@, b@, final(q)@, r),
            Err(e) => {
                &&& *final(q) == *old(q)
                &&& (e == ArithError::DivisionByZero) == (b@.len() == 0)
                &&& e == ArithError::DivisionByZero || e == ArithError::NotIntegral
                &&& forall|x: Seq<int>, y: Seq<int>| !is_division(a@, b@, x, y)
            },
        },
{
    let mut r = ZZX::new();
    let res = div_rem(q, &mut r, a, b);
    proof {
        if res.is_ok() {
            assert(is_division(a@, b@, final(q)@, r@));
        }
    }
    res
}

} // verus!
