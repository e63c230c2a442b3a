//! Arithmetic modulo a fixed monic polynomial, the defining polynomial of
//! the ring. The modulus is handed to every operation; nothing is kept
//! between calls.

use crate::division::{is_division, lemma_division_unique, rem};
use crate::error::ArithError;
use crate::integer::{int_add, int_from_i64, int_is, int_mul, int_neg, val, vals};
use crate::poly::{
    coeff, coeffs_of, conv, is_normalized, lead, lemma_conv_constant, lemma_conv_zero,
    lemma_normal_form_unique, lemma_normalized, normalized, poly_left_shift, poly_mul,
};
use crate::product::{product_fits, sqr};
use crate::series::lemma_cauchy_comm;
use crate::zzx::ZZX;
use rug::Integer;
use vstd::prelude::*;

verus! {

/// A modulus has to be monic and of degree one at least.
pub open spec fn valid_modulus(f: Seq<int>) -> bool {
    f.len() >= 2 && lead(f) == 1
}

/// `x` is `a` reduced modulo `f`: its degree is below that of `f`, and it
/// differs from `a` by a multiple of `f`.
pub open spec fn is_reduction(a: Seq<int>, f: Seq<int>, x: Seq<int>) -> bool {
    exists|q: Seq<int>| #[trigger] is_division(a, f, q, x)
}

/// A polynomial has one reduction modulo `f` only.
pub proof fn lemma_reduction_unique(a: Seq<int>, f: Seq<int>, x: Seq<int>, y: Seq<int>)
    requires
        is_normalized(f),
        f.len() > 0,
        is_reduction(a, f, x),
        is_reduction(a, f, y),
    ensures
        x == y,
{
    let q1 = choose|q: Seq<int>| #[trigger] is_division(a, f, q, x);
    let q2 = choose|q: Seq<int>| #[trigger] is_division(a, f, q, y);
    assert forall|n: int| 1 * #[trigger] coeff(a, n) == conv(q1, f, n) + coeff(x, n) by {
        assert(coeff(a, n) == conv(q1, f, n) + coeff(x, n));
    }
    assert forall|n: int| 1 * #[trigger] coeff(a, n) == conv(q2, f, n) + 1 * coeff(y, n) by {
        assert(coeff(a, n) == conv(q2, f, n) + coeff(y, n));
    }
    lemma_division_unique(a, f, 1, q1, x, 1, q2, y);
    assert forall|n: int| coeff(x, n) == coeff(y, n) by {
        assert(1 * coeff(x, n) == 1 * (1 * coeff(y, n)));
    }
    lemma_normal_form_unique(x, y);
}

/// Whether `f` can serve as a modulus: it is monic and not constant.
fn check_modulus(f: &ZZX) -> (ok: bool)
    ensures
        ok == valid_modulus(f@),
{
    let lc: Integer = f.lead_coeff();
    f.deg() >= 1 && int_is(&lc, 1)
}

/// `a * b mod f`.
///
/// Fails with `BadArguments` unless `f` is monic of degree one at least and
/// the degrees of `a` and `b` are below that of `f`.
pub fn mulmod(a: &ZZX, b: &ZZX, f: &ZZX) -> (res: Result<ZZX, ArithError>)
    requires
        valid_modulus(f@) && a@.len() < f@.len() && b@.len() < f@.len() ==> product_fits(
            a@.len(),
            b@.len(),
        ),
    ensures
        res.is_ok() == (valid_modulus(f@) && a@.len() < f@.len() && b@.len() < f@.len()),
        match res {
            Ok(x) => is_normalized(x@) && is_reduction(poly_mul(a@, b@), f@, x@),
            Err(e) => e == ArithError::BadArguments,
        },
{
    if a.deg() >= f.deg() || b.deg() >= f.deg() || !check_modulus(f) {
        return Err(ArithError::BadArguments);
    }
    let mut t = ZZX::new();
    crate::product::mul(&mut t, a, b);
    let mut x = ZZX::new();
    match rem(&mut x, &t, f) {
        Ok(_) => Ok(x),
        Err(_) => Err(ArithError::BadArguments),
    }
}

/// `a * a mod f`.
///
/// Fails with `BadArguments` unless `f` is monic of degree one at least and
/// the degree of `a` is below that of `f`.
pub fn sqrmod(a: &ZZX, f: &ZZX) -> (res: Result<ZZX, ArithError>)
    requires
        valid_modulus(f@) && a@.len() < f@.len() ==> product_fits(a@.len(), a@.len()),
    ensures
        res.is_ok() == (valid_modulus(f@) && a@.len() < f@.len()),
        match res {
            Ok(x) => is_normalized(x@) && is_reduction(poly_mul(a@, a@), f@, x@),
            Err(e) => e == ArithError::BadArguments,
        },
{
    if a.deg() >= f.deg() || !check_modulus(f) {
        return Err(ArithError::BadArguments);
    }
    let t = sqr(a);
    let mut x = ZZX::new();
    match rem(&mut x, &t, f) {
        Ok(_) => Ok(x),
        Err(_) => Err(ArithError::BadArguments),
    }
}

/// `a * X mod f`, computed without a multiplication of polynomials: the
/// coefficients of `a` move up by one place, and where that reaches the degree
/// of `f`, the matching multiple of `f` is taken off.
///
/// Fails with `BadArguments` unless `f` is monic of degree one at least and
/// the degree of `a` is below that of `f`.
pub fn mulbyxmod(a: &ZZX, f: &ZZX) -> (res: Result<ZZX, ArithError>)
    ensures
        res.is_ok() == (valid_modulus(f@) && a@.len() < f@.len()),
        match res {
            Ok(h) => is_normalized(h@) && is_reduction(poly_left_shift(a@, 1), f@, h@),
            Err(e) => e == ArithError::BadArguments,
        },
{
    if a.deg() >= f.deg() || !check_modulus(f) {
        return Err(ArithError::BadArguments);
    }
    let ap = a.coeffs_ref();
    let fp = f.coeffs_ref();
    let la: usize = ap.len();
    let n: usize = fp.len() - 1;
    let ghost xa = poly_left_shift(a@, 1);
    if la == 0 {
        let h = ZZX::new();
        proof {
            assert forall|i: int|
                #[trigger] coeff(xa, i) == conv(Seq::<int>::empty(), f@, i) + coeff(
                h@,
                i,
            ) by {
                lemma_conv_zero(Seq::<int>::empty(), f@, i);
            }
            assert(is_division(xa, f@, Seq::empty(), h@));
        }
        return Ok(h);
    }
    let mut v: Vec<Integer> = Vec::new();
    if la < n {
        v.push(int_from_i64(0));
        let mut i: usize = 0;
        while i < la
            invariant
                i <= la,
                la == ap.len(),
                la < n,
                v.len() == i + 1,
                vals(ap@) == a@,
                forall|j: int| 0 <= j < i + 1 ==> val(#[trigger] v@[j]) == coeff(a@, j - 1),
            decreases la - i,
        {
            v.push(ap[i].clone());
            i = i + 1;
        }
        proof {
            assert(vals(v@) =~= xa);
            assert(is_normalized(xa));
        }
        let h = ZZX::new_with_vec(v);
        proof {
            assert forall|i: int|
                #[trigger] coeff(xa, i) == conv(Seq::<int>::empty(), f@, i) + coeff(
                h@,
                i,
            ) by {
                lemma_conv_zero(Seq::<int>::empty(), f@, i);
            }
            assert(is_division(xa, f@, Seq::empty(), h@));
        }
        return Ok(h);
    }
    // the degree of `a * X` is that of `f`: take off `a[n - 1] * f`
    let top: Integer = ap[n - 1].clone();
    let z: Integer = int_neg(&top);
    v.push(int_mul(&z, &fp[0]));
    proof {
        assert(val(z) * f@[0] == -(val(top) * f@[0])) by (nonlinear_arith)
            requires
                val(z) == -val(top),
        ;
    }
    let mut i: usize = 1;
    while i < n
        invariant
            1 <= i <= n,
            la == n,
            la == ap.len(),
            n + 1 == fp.len(),
            v.len() == i,
            vals(ap@) == a@,
            vals(fp@) == f@,
            val(z) == -val(top),
            val(top) == a@[n - 1],
            forall|j: int|
                0 <= j < i ==> val(#[trigger] v@[j]) == coeff(a@, j - 1) - val(top) * f@[j],
        decreases n - i,
    {
        let t: Integer = int_mul(&z, &fp[i]);
        let c: Integer = int_add(&ap[i - 1], &t);
        proof {
            assert(val(z) * f@[i as int] == -(val(top) * f@[i as int])) by (nonlinear_arith)
                requires
                    val(z) == -val(top),
            ;
        }
        v.push(c);
        i = i + 1;
    }
    let ghost hs = vals(v@);
    let h = ZZX::new_with_vec(v);
    proof {
        lemma_normalized(hs);
        let c = val(top);
        let q = seq![c];
        assert(is_normalized(q));
        assert forall|i: int| #[trigger] coeff(xa, i) == conv(q, f@, i) + coeff(h@, i) by {
            lemma_cauchy_comm(coeffs_of(q), coeffs_of(f@), i);
            lemma_conv_constant(f@, q, i);
            assert(coeff(f@, i) * c == c * coeff(f@, i)) by (nonlinear_arith);
            assert(coeff(normalized(hs), i) == coeff(hs, i));
            if i == n {
                assert(c * 1 == c);
            }
        }
        assert(is_division(xa, f@, q, h@));
    }
    Ok(h)
}

} // verus!
