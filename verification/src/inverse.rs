//! The inverse of a power series, to a given number of terms.

use crate::error::ArithError;
use crate::integer::int_is;
use crate::linear::{left_shift, right_shift, trunc};
use crate::poly::{
    coeff, coeffs_of, conv, is_normalized, lemma_conv_at_zero, lemma_conv_constant, lemma_mul_coeff,
    lemma_normal_form_unique, lemma_shift_coeff, lemma_sub_coeff, lemma_trunc_coeff,
    poly_left_shift, poly_mul, poly_right_shift, poly_sub, poly_trunc,
};
use crate::series::{
    cauchy, lemma_cauchy_assoc, lemma_cauchy_comm, lemma_cauchy_ext, lemma_cauchy_linear_right,
    lemma_cauchy_shift, lemma_cauchy_unit, sum_over, unit,
};
use crate::zzx::{fits, ZZX};
use rug::Integer;
use vstd::prelude::*;

verus! {

/// `g` is an inverse of `a` modulo `X^e`: the product `a * g` has the
/// constant term one and no other term below `X^e`.
pub open spec fn is_inverse_mod(a: Seq<int>, g: Seq<int>, e: int) -> bool {
    forall|n: int| 0 <= n < e ==> #[trigger] conv(a, g, n) == unit()(n)
}

/// The product of a polynomial and its inverse modulo `X^e`, cut off at
/// `X^e`, is the constant one.
pub proof fn lemma_inverse_product(a: Seq<int>, g: Seq<int>, e: int)
    requires
        e >= 1,
        is_inverse_mod(a, g, e),
    ensures
        poly_trunc(poly_mul(a, g), e) == seq![1int],
{
    let t = poly_trunc(poly_mul(a, g), e);
    let one = seq![1int];
    lemma_trunc_coeff(poly_mul(a, g), e, 0);
    assert forall|n: int| coeff(t, n) == coeff(one, n) by {
        lemma_trunc_coeff(poly_mul(a, g), e, n);
        lemma_mul_coeff(a, g, n);
        if 0 <= n < e {
            assert(conv(a, g, n) == unit()(n));
        }
    }
    crate::poly::lemma_normalized(Seq::new(0, |i: int| 0int));
    assert(is_normalized(t)) by {
        lemma_trunc_normalized(poly_mul(a, g), e);
    }
    lemma_normal_form_unique(t, one);
}

/// A truncation is in normal form.
pub proof fn lemma_trunc_normalized(a: Seq<int>, m: int)
    ensures
        is_normalized(poly_trunc(a, m)),
{
    let len: nat = if m <= 0 {
        0
    } else if m <= a.len() {
        m as nat
    } else {
        a.len()
    };
    crate::poly::lemma_normalized(Seq::new(len, |i: int| a[i]));
}

/// One step of the Newton iteration: from an inverse modulo `X^k` to an
/// inverse modulo `X^(k + l)`, for `l <= k`.
proof fn lemma_newton_step(a: Seq<int>, g: Seq<int>, k: int, l: int)
    requires
        1 <= k,
        0 <= l <= k,
        g.len() <= k,
        is_inverse_mod(a, g, k),
    ensures
        ({
            let g0 = poly_trunc(a, k + l);
            let g1 = poly_trunc(poly_right_shift(poly_mul(g0, g), k), l);
            let g2 = poly_left_shift(poly_trunc(poly_mul(g1, g), l), k);
            let g3 = poly_sub(g, g2);
            is_inverse_mod(a, g3, k + l) && g3.len() <= k + l
        }),
{
    let g0 = poly_trunc(a, k + l);
    let p1 = poly_mul(g0, g);
    let g1 = poly_trunc(poly_right_shift(p1, k), l);
    let p2 = poly_mul(g1, g);
    let t2 = poly_trunc(p2, l);
    let g2 = poly_left_shift(t2, k);
    let g3 = poly_sub(g, g2);
    let fa = coeffs_of(a);
    let fg = coeffs_of(g);
    let fh = coeffs_of(g1);
    let ft = coeffs_of(t2);
    let f2 = coeffs_of(g2);
    let f3 = coeffs_of(g3);
    // the lengths
    lemma_trunc_coeff(p2, l, 0);
    lemma_shift_coeff(t2, k, 0);
    lemma_sub_coeff(g, g2, 0);
    // g1 holds the coefficients k .. k + l of a * g
    assert forall|m: int| 0 <= m < l implies #[trigger] fh(m) == conv(a, g, m + k) by {
        lemma_trunc_coeff(poly_right_shift(p1, k), l, m);
        lemma_shift_coeff(p1, -k, m);
        lemma_mul_coeff(g0, g, m + k);
        assert forall|j: int| 0 <= j <= m + k implies #[trigger] coeffs_of(g0)(j) == fa(j) by {
            lemma_trunc_coeff(a, k + l, j);
        }
        lemma_cauchy_ext(coeffs_of(g0), fg, fa, fg, m + k);
    }
    assert forall|n: int| 0 <= n < k + l implies #[trigger] conv(a, g3, n) == unit()(n) by {
        // a * g3 = a * g - a * g2
        assert forall|j: int| 0 <= j <= n implies #[trigger] f3(j) == 1 * fg(j) + (-1) * f2(j) by {
            lemma_sub_coeff(g, g2, j);
        }
        lemma_cauchy_linear_right(fa, f3, 1, fg, -1, f2, n);
        // a * g2 is a * t2, moved up by k places
        lemma_cauchy_comm(fa, f2, n);
        assert forall|j: int| 0 <= j <= n implies #[trigger] f2(j) == ft(j - k) by {
            lemma_shift_coeff(t2, k, j);
        }
        lemma_cauchy_shift(f2, ft, fa, k, n);
        let m = n - k;
        if m < 0 {
            assert(sum_over(|j: int| ft(j) * fa(m - j), 0, m + 1) == 0);
            assert(conv(a, g, n) == unit()(n));
        } else {
            lemma_cauchy_comm(ft, fa, m);
            // below X^l, t2 is g1 * g
            let gh = |j: int| cauchy(fg, fh, j);
            assert forall|j: int| 0 <= j <= m implies #[trigger] ft(j) == gh(j) by {
                lemma_trunc_coeff(p2, l, j);
                lemma_mul_coeff(g1, g, j);
                lemma_cauchy_comm(fh, fg, j);
            }
            lemma_cauchy_ext(fa, ft, fa, gh, m);
            // a * (g * g1) = (a * g) * g1, and a * g is one below X^k
            let ag = |j: int| cauchy(fa, fg, j);
            lemma_cauchy_assoc(fa, fg, fh, ag, gh, m);
            assert(ag(0) == 1) by {
                assert(conv(a, g, 0) == unit()(0));
            }
            assert forall|j: int| 1 <= j <= m implies #[trigger] ag(j) == 0 by {
                assert(conv(a, g, j) == unit()(j));
            }
            lemma_cauchy_unit(ag, fh, m);
            assert(fh(m) == conv(a, g, m + k));
        }
    }
}

/// The precisions through which the iteration climbs: from `e` down to one,
/// each the rounded-up half of the one before.
fn precisions(e: i64) -> (v: Vec<i64>)
    requires
        e >= 1,
    ensures
        v.len() >= 1,
        v[0] == e,
        v[v.len() - 1] == 1,
        forall|i: int| 0 <= i < v.len() ==> 1 <= #[trigger] v[i] <= e,
        forall|i: int| 1 <= i < v.len() ==> #[trigger] v[i] == (v[i - 1] + 1) / 2,
{
    let mut v: Vec<i64> = Vec::new();
    v.push(e);
    let mut cur: i64 = e;
    while cur > 1
        invariant
            1 <= cur <= e,
            v.len() >= 1,
            v[0] == e,
            v[v.len() - 1] == cur,
            forall|i: int| 0 <= i < v.len() ==> 1 <= #[trigger] v[i] <= e,
            forall|i: int| 1 <= i < v.len() ==> #[trigger] v[i] == (v[i - 1] + 1) / 2,
        decreases cur,
    {
        cur = (cur - 1) / 2 + 1;
        v.push(cur);
    }
    v
}

/// The inverse of `a` modulo `X^e` by Newton iteration, for `e >= 1`. Fails
/// where the constant term of `a` is neither `1` nor `-1`.
pub fn newton_inv_trunc(a: &ZZX, e: i64) -> (res: Result<ZZX, ArithError>)
    requires
        e >= 1,
        coeff(a@, 0) == 1 || coeff(a@, 0) == -1 ==> fits(2 * e),
    ensures
        res.is_ok() == (coeff(a@, 0) == 1 || coeff(a@, 0) == -1),
        match res {
            Ok(g) => {
                &&& is_normalized(g@)
                &&& g@.len() <= e
                &&& is_inverse_mod(a@, g@, e as int)
                &&& coeff(g@, 0) == coeff(a@, 0)
            },
            Err(err) => err == ArithError::NonInvertible,
        },
{
    let c0: Integer = a.const_term();
    if !(int_is(&c0, 1) || int_is(&c0, -1)) {
        return Err(ArithError::NonInvertible);
    }
    let mut g = ZZX::new_with_val(c0);
    proof {
        let c = coeff(a@, 0);
        assert(g@ =~= seq![c]);
        assert forall|n: int| 0 <= n < 1 implies #[trigger] conv(a@, g@, n) == unit()(n) by {
            lemma_conv_constant(a@, g@, 0);
            assert(c * c == 1) by (nonlinear_arith)
                requires
                    c == 1 || c == -1,
            ;
        }
    }
    let steps: Vec<i64> = precisions(e);
    let mut i: usize = steps.len() - 1;
    while i > 0
        invariant
            i < steps.len(),
            steps[0] == e,
            fits(2 * e),
            forall|j: int| 0 <= j < steps.len() ==> 1 <= #[trigger] steps[j] <= e,
            forall|j: int| 1 <= j < steps.len() ==> #[trigger] steps[j] == (steps[j - 1] + 1) / 2,
            is_normalized(g@),
            g@.len() <= steps[i as int],
            is_inverse_mod(a@, g@, steps[i as int] as int),
        decreases i,
    {
        // from an inverse modulo X^k to one modulo X^(k + l)
        let k: i64 = steps[i];
        let l: i64 = steps[i - 1] - steps[i];
        proof {
            assert(steps[i as int] == (steps[i - 1] + 1) / 2);
            lemma_newton_step(a@, g@, k as int, l as int);
            lemma_trunc_coeff(a@, (k + l) as int, 0);
        }
        let g0 = trunc(a, k + l);
        let mut g1 = ZZX::new();
        crate::product::mul(&mut g1, &g0, &g);
        let g1 = right_shift(&g1, k);
        let g1 = trunc(&g1, l);
        proof {
            lemma_trunc_coeff(poly_right_shift(poly_mul(g0@, g@), k as int), l as int, 0);
        }
        let mut g2 = ZZX::new();
        crate::product::mul(&mut g2, &g1, &g);
        let g2 = trunc(&g2, l);
        proof {
            lemma_trunc_coeff(poly_mul(g1@, g@), l as int, 0);
        }
        let g2 = left_shift(&g2, k);
        let mut g3 = ZZX::new();
        crate::linear::sub(&mut g3, &g, &g2);
        g = g3;
        i = i - 1;
    }
    proof {
        // a_0 * g_0 = 1, and a_0 is 1 or -1
        lemma_conv_at_zero(a@, g@);
        assert(conv(a@, g@, 0) == unit()(0));
        let x = coeff(a@, 0);
        let y = coeff(g@, 0);
        assert(y == x) by (nonlinear_arith)
            requires
                x * y == 1,
                x == 1 || x == -1,
        ;
    }
    Ok(g)
}

/// The inverse of `a` modulo `X^e`: the polynomial `g` of degree below `e`
/// with `a * g = 1 mod X^e`.
///
/// For `e = 0` the result is zero, whatever `a` is. Fails with
/// `NegativeLength` for a negative `e`, and for a positive `e` with
/// `NonInvertible` where the constant term of `a` is neither `1` nor `-1`.
pub fn inv_trunc(a: &ZZX, e: i64) -> (res: Result<ZZX, ArithError>)
    requires
        e >= 1 && (coeff(a@, 0) == 1 || coeff(a@, 0) == -1) ==> fits(2 * e),
    ensures
        res.is_ok() == (e == 0 || (e > 0 && (coeff(a@, 0) == 1 || coeff(a@, 0) == -1))),
        match res {
            Ok(g) => {
                &&& is_normalized(g@)
                &&& g@.len() <= e
                &&& is_inverse_mod(a@, g@, e as int)
                &&& e >= 1 ==> coeff(g@, 0) == coeff(a@, 0)
                &&& e >= 1 ==> poly_trunc(poly_mul(a@, g@), e as int) == seq![1int]
            },
            Err(err) => {
                &&& (err == ArithError::NegativeLength) == (e < 0)
                &&& err == ArithError::NegativeLength || err == ArithError::NonInvertible
            },
        },
{
    if e < 0 {
        return Err(ArithError::NegativeLength);
    }
    if e == 0 {
        return Ok(ZZX::new());
    }
    let res = newton_inv_trunc(a, e);
    proof {
        if res.is_ok() {
            lemma_inverse_product(a@, res.unwrap()@, e as int);
        }
    }
    res
}

} // verus!
