//! Polynomials as sequences of coefficients: what a sequence means as a
//! polynomial, when it is in normal form, and the product of two of them.

use crate::series::{
    cauchy, lemma_cauchy_as_sum, lemma_cauchy_linear, lemma_cauchy_linear_right, lemma_sum_reverse,
    lemma_sum_split, lemma_sum_zero, sum_over,
};
use vstd::prelude::*;

verus! {

/// Coefficient `i` of the polynomial that `s` stores: `s[i]` inside the
/// stored range and zero everywhere else.
pub open spec fn coeff(s: Seq<int>, i: int) -> int {
    if 0 <= i < s.len() {
        s[i]
    } else {
        0
    }
}

/// The coefficient function of the polynomial that `s` stores.
pub open spec fn coeffs_of(s: Seq<int>) -> spec_fn(int) -> int {
    |i: int| coeff(s, i)
}

/// A sequence is in normal form when it does not end in a zero. The zero
/// polynomial is the empty sequence.
pub open spec fn is_normalized(s: Seq<int>) -> bool {
    s.len() == 0 || s[s.len() - 1] != 0
}

/// The sequence without the zeros at its end.
pub open spec fn normalized(s: Seq<int>) -> Seq<int>
    decreases s.len(),
{
    if s.len() > 0 && s[s.len() - 1] == 0 {
        normalized(s.drop_last())
    } else {
        s
    }
}

/// Two sequences store the same polynomial.
pub open spec fn same_poly(a: Seq<int>, b: Seq<int>) -> bool {
    forall|i: int| coeff(a, i) == coeff(b, i)
}

/// The degree of the polynomial that a normal form stores; `-1` for zero.
pub open spec fn degree(s: Seq<int>) -> int {
    s.len() - 1
}

/// The leading coefficient of a normal form; zero for the zero polynomial.
pub open spec fn lead(s: Seq<int>) -> int {
    coeff(s, s.len() - 1)
}

/// The larger of two lengths.
pub open spec fn longer(m: nat, n: nat) -> nat {
    if m >= n {
        m
    } else {
        n
    }
}

/// Stripping the zeros at the end gives a normal form of the same polynomial,
/// no longer than the sequence it came from.
pub proof fn lemma_normalized(s: Seq<int>)
    ensures
        is_normalized(normalized(s)),
        same_poly(normalized(s), s),
        normalized(s).len() <= s.len(),
        is_normalized(s) ==> normalized(s) == s,
    decreases s.len(),
{
    if s.len() > 0 && s[s.len() - 1] == 0 {
        lemma_normalized(s.drop_last());
        assert forall|i: int| coeff(normalized(s), i) == coeff(s, i) by {
            assert(coeff(normalized(s.drop_last()), i) == coeff(s.drop_last(), i));
        }
    }
}

/// A polynomial has one normal form only.
pub proof fn lemma_normal_form_unique(a: Seq<int>, b: Seq<int>)
    requires
        is_normalized(a),
        is_normalized(b),
        same_poly(a, b),
    ensures
        a == b,
{
    if a.len() < b.len() {
        assert(coeff(a, b.len() - 1) == coeff(b, b.len() - 1));
    } else if b.len() < a.len() {
        assert(coeff(a, a.len() - 1) == coeff(b, a.len() - 1));
    } else {
        assert forall|i: int| 0 <= i < a.len() implies a[i] == b[i] by {
            assert(coeff(a, i) == coeff(b, i));
        }
        assert(a =~= b);
    }
}

/// A sequence of zeros stores the zero polynomial.
pub proof fn lemma_zeros_normalize(s: Seq<int>)
    requires
        forall|i: int| 0 <= i < s.len() ==> s[i] == 0,
    ensures
        normalized(s) == Seq::<int>::empty(),
    decreases s.len(),
{
    if s.len() > 0 {
        lemma_zeros_normalize(s.drop_last());
    } else {
        assert(s =~= Seq::<int>::empty());
    }
}

/// Coefficient `n` of the product of the polynomials `a` and `b`: the sum of
/// `a_j * b_(n - j)` for `j` from `0` to `n`.
pub open spec fn conv(a: Seq<int>, b: Seq<int>, n: int) -> int {
    cauchy(coeffs_of(a), coeffs_of(b), n)
}

/// Term `j` of coefficient `n` of the product of `a` and `b`.
pub open spec fn conv_term(a: Seq<int>, b: Seq<int>, n: int) -> spec_fn(int) -> int {
    |j: int| coeff(a, j) * coeff(b, n - j)
}

/// The sum of two polynomials, coefficient by coefficient.
pub open spec fn poly_add(a: Seq<int>, b: Seq<int>) -> Seq<int> {
    normalized(Seq::new(longer(a.len(), b.len()), |i: int| coeff(a, i) + coeff(b, i)))
}

/// The difference of two polynomials, coefficient by coefficient.
pub open spec fn poly_sub(a: Seq<int>, b: Seq<int>) -> Seq<int> {
    normalized(Seq::new(longer(a.len(), b.len()), |i: int| coeff(a, i) - coeff(b, i)))
}

/// The polynomial with every coefficient negated.
pub open spec fn poly_neg(a: Seq<int>) -> Seq<int> {
    Seq::new(a.len(), |i: int| -a[i])
}

/// The polynomial with every coefficient multiplied by `c`.
pub open spec fn poly_scale(a: Seq<int>, c: int) -> Seq<int> {
    normalized(Seq::new(a.len(), |i: int| a[i] * c))
}

/// `a mod X^m`: the coefficients below index `m`.
pub open spec fn poly_trunc(a: Seq<int>, m: int) -> Seq<int> {
    normalized(Seq::new(
        if m <= 0 {
            0
        } else if m <= a.len() {
            m as nat
        } else {
            a.len()
        },
        |i: int| a[i],
    ))
}

/// `a * X^n` for `n >= 0`; `a div X^(-n)` for `n < 0`.
pub open spec fn poly_left_shift(a: Seq<int>, n: int) -> Seq<int> {
    if a.len() == 0 || n + a.len() <= 0 {
        Seq::empty()
    } else {
        Seq::new((a.len() + n) as nat, |i: int| coeff(a, i - n))
    }
}

/// `a div X^n` for `n >= 0`; `a * X^(-n)` for `n < 0`.
pub open spec fn poly_right_shift(a: Seq<int>, n: int) -> Seq<int> {
    poly_left_shift(a, -n)
}

/// The derivative.
pub open spec fn poly_diff(a: Seq<int>) -> Seq<int> {
    normalized(Seq::new(
        if a.len() == 0 {
            0
        } else {
            (a.len() - 1) as nat
        },
        |i: int| (i + 1) * coeff(a, i + 1),
    ))
}

/// The coefficients `0..=hi` in reverse order: coefficient `i` of the result
/// is coefficient `hi - i` of `a`. Zero for a negative `hi`.
pub open spec fn poly_reverse(a: Seq<int>, hi: int) -> Seq<int> {
    normalized(Seq::new(
        if hi < 0 {
            0
        } else {
            (hi + 1) as nat
        },
        |i: int| coeff(a, hi - i),
    ))
}

/// The product of two polynomials: coefficient `n` is `conv(a, b, n)`.
pub open spec fn poly_mul(a: Seq<int>, b: Seq<int>) -> Seq<int> {
    normalized(Seq::new(
        if a.len() == 0 || b.len() == 0 {
            0
        } else {
            (a.len() + b.len() - 1) as nat
        },
        |n: int| conv(a, b, n),
    ))
}

/// The first index of `a` that takes part in coefficient `n` of a product
/// whose other factor has `len` coefficients.
pub open spec fn window_lo(len: nat, n: int) -> int {
    if n >= len {
        n - (len - 1)
    } else {
        0
    }
}

/// The last index of a factor with `len` coefficients that takes part in
/// coefficient `n` of a product.
pub open spec fn window_hi(len: nat, n: int) -> int {
    if n < len {
        n
    } else {
        len - 1
    }
}

/// Coefficient `n` of the square of `a`, computed from half of the terms:
/// each product of two different coefficients is counted twice, and the
/// square of the middle coefficient, where there is one, once.
pub open spec fn sqr_coeff(a: Seq<int>, n: int) -> int {
    let lo = window_lo(a.len(), n);
    let m = window_hi(a.len(), n) - lo + 1;
    let half = m / 2;
    2 * sum_over(conv_term(a, a, n), lo, lo + half) + (if m % 2 == 1 {
        coeff(a, lo + half) * coeff(a, lo + half)
    } else {
        0
    })
}

/// The square of a polynomial as the squaring routine computes it.
pub open spec fn poly_sqr(a: Seq<int>) -> Seq<int> {
    normalized(Seq::new(
        if a.len() == 0 {
            0
        } else {
            (2 * a.len() - 1) as nat
        },
        |n: int| sqr_coeff(a, n),
    ))
}

/// A coefficient of a product is the sum of its terms over any window of
/// indices outside of which one of the two coefficients is zero.
pub proof fn lemma_conv_window(a: Seq<int>, b: Seq<int>, n: int, lo: int, hi: int)
    requires
        0 <= lo <= hi <= n + 1,
        forall|k: int| n - lo < k <= n ==> #[trigger] coeff(b, k) == 0,
        forall|j: int| hi <= j <= n ==> #[trigger] coeff(a, j) == 0,
    ensures
        conv(a, b, n) == sum_over(conv_term(a, b, n), lo, hi),
{
    let t = conv_term(a, b, n);
    lemma_cauchy_as_sum(coeffs_of(a), coeffs_of(b), n, t);
    lemma_sum_split(t, 0, lo, n + 1);
    lemma_sum_split(t, lo, hi, n + 1);
    assert forall|j: int| 0 <= j < lo implies #[trigger] t(j) == 0 by {
        assert(coeff(b, n - j) == 0);
    }
    lemma_sum_zero(t, 0, lo);
    assert forall|j: int| hi <= j < n + 1 implies #[trigger] t(j) == 0 by {
        assert(coeff(a, j) == 0);
    }
    lemma_sum_zero(t, hi, n + 1);
}

/// A coefficient of a product of polynomials with `a.len()` and `b.len()`
/// coefficients is the sum of its terms over the window of the indices that
/// both factors hold.
pub proof fn lemma_conv_stored(a: Seq<int>, b: Seq<int>, n: int)
    requires
        a.len() > 0,
        b.len() > 0,
        0 <= n <= a.len() + b.len() - 2,
    ensures
        conv(a, b, n) == sum_over(
            conv_term(a, b, n),
            window_lo(b.len(), n),
            window_hi(a.len(), n) + 1,
        ),
{
    lemma_conv_window(a, b, n, window_lo(b.len(), n), window_hi(a.len(), n) + 1);
}

/// Above the sum of the degrees, a product has no coefficients.
pub proof fn lemma_conv_above(a: Seq<int>, b: Seq<int>, n: int)
    requires
        n < 0 || n + 1 >= a.len() + b.len(),
    ensures
        conv(a, b, n) == 0,
{
    let t = conv_term(a, b, n);
    lemma_cauchy_as_sum(coeffs_of(a), coeffs_of(b), n, t);
    if n >= 0 {
        assert forall|j: int| 0 <= j < n + 1 implies #[trigger] t(j) == 0 by {
            if j < a.len() {
                assert(n - j >= b.len());
                assert(coeff(b, n - j) == 0);
            } else {
                assert(coeff(a, j) == 0);
            }
        }
        lemma_sum_zero(t, 0, n + 1);
    }
}

/// The constant term of a product is the product of the constant terms.
pub proof fn lemma_conv_at_zero(a: Seq<int>, b: Seq<int>)
    ensures
        conv(a, b, 0) == coeff(a, 0) * coeff(b, 0),
{
    lemma_conv_window(a, b, 0, 0, 1);
    let t = conv_term(a, b, 0);
    assert(sum_over(t, 0, 1) == sum_over(t, 0, 0) + t(0));
}

/// A product with the zero polynomial is zero.
pub proof fn lemma_conv_zero(q: Seq<int>, b: Seq<int>, n: int)
    requires
        q.len() == 0 || b.len() == 0,
    ensures
        conv(q, b, n) == 0,
{
    let t = conv_term(q, b, n);
    lemma_cauchy_as_sum(coeffs_of(q), coeffs_of(b), n, t);
    assert forall|j: int| 0 <= j < n + 1 implies #[trigger] t(j) == 0 by {}
    lemma_sum_zero(t, 0, n + 1);
}

/// A product with a constant polynomial multiplies every coefficient by the
/// constant.
pub proof fn lemma_conv_constant(q: Seq<int>, b: Seq<int>, n: int)
    requires
        b.len() == 1,
    ensures
        conv(q, b, n) == coeff(q, n) * b[0],
{
    if n >= 0 {
        lemma_conv_window(q, b, n, n, n + 1);
        let t = conv_term(q, b, n);
        assert(sum_over(t, n, n + 1) == sum_over(t, n, n) + t(n));
    } else {
        lemma_conv_above(q, b, n);
    }
}

/// Multiplying the factors by `c` and by `d` multiplies the product by
/// `c * d`.
pub proof fn lemma_conv_scale(
    q: Seq<int>,
    b: Seq<int>,
    q2: Seq<int>,
    b2: Seq<int>,
    c: int,
    d: int,
    n: int,
)
    requires
        forall|j: int| #[trigger] coeff(q2, j) == c * coeff(q, j),
        forall|j: int| #[trigger] coeff(b2, j) == d * coeff(b, j),
    ensures
        conv(q2, b2, n) == c * d * conv(q, b, n),
{
    let zero = |j: int| 0int;
    assert forall|j: int| 0 <= j <= n implies #[trigger] coeffs_of(q2)(j) == c * coeffs_of(q)(j) + 0
        * zero(j) by {
        assert(coeff(q2, j) == c * coeff(q, j));
    }
    lemma_cauchy_linear(coeffs_of(q2), c, coeffs_of(q), 0, zero, coeffs_of(b2), n);
    assert forall|j: int| 0 <= j <= n implies #[trigger] coeffs_of(b2)(j) == d * coeffs_of(b)(j) + 0
        * zero(j) by {
        assert(coeff(b2, j) == d * coeff(b, j));
    }
    lemma_cauchy_linear_right(coeffs_of(q), coeffs_of(b2), d, coeffs_of(b), 0, zero, n);
    assert(c * (d * conv(q, b, n)) == c * d * conv(q, b, n)) by (nonlinear_arith);
}

/// The squaring routine computes the coefficients of the product of a
/// polynomial with itself.
pub proof fn lemma_sqr_coeff(a: Seq<int>, n: int)
    requires
        a.len() > 0,
        0 <= n <= 2 * a.len() - 2,
    ensures
        sqr_coeff(a, n) == conv(a, a, n),
{
    let t = conv_term(a, a, n);
    let lo = window_lo(a.len(), n);
    let hi = window_hi(a.len(), n);
    let m = hi - lo + 1;
    let half = m / 2;
    assert(lo + hi == n);
    lemma_conv_stored(a, a, n);
    // the window is a lower half, perhaps a middle term, and an upper half
    lemma_sum_split(t, lo, lo + half, hi + 1);
    lemma_sum_split(t, lo + half, hi + 1 - half, hi + 1);
    // the upper half is the lower half read backwards
    assert forall|j: int| lo <= j < lo + half implies #[trigger] t(j) == t(n - j) by {
        assert(coeff(a, j) * coeff(a, n - j) == coeff(a, n - j) * coeff(a, n - (n - j)))
            by (nonlinear_arith);
    }
    lemma_sum_reverse(t, t, n, lo, lo + half);
    if m % 2 == 1 {
        assert(hi + 1 - half == lo + half + 1);
        assert(sum_over(t, lo + half, lo + half + 1) == sum_over(t, lo + half, lo + half) + t(
            lo + half,
        ));
        assert(n - (lo + half) == lo + half);
    } else {
        assert(hi + 1 - half == lo + half);
        assert(sum_over(t, lo + half, lo + half) == 0);
    }
}

/// Squaring a polynomial and multiplying it by itself give the same
/// polynomial.
pub proof fn lemma_sqr_is_mul(a: Seq<int>)
    ensures
        poly_sqr(a) == poly_mul(a, a),
{
    if a.len() > 0 {
        let len = (2 * a.len() - 1) as nat;
        let s = Seq::new(len, |n: int| sqr_coeff(a, n));
        let p = Seq::new(len, |n: int| conv(a, a, n));
        assert forall|n: int| 0 <= n < len implies s[n] == p[n] by {
            lemma_sqr_coeff(a, n);
        }
        assert(s =~= p);
    } else {
        assert(Seq::new(0, |n: int| sqr_coeff(a, n)) =~= Seq::new(0, |n: int| conv(a, a, n)));
    }
}

/// The product of two polynomials other than zero, coefficient by
/// coefficient: up to the sum of the degrees, coefficient `i` is the sum of
/// `a_j * b_(i - j)` over the indices `j` that both factors hold; above the
/// sum of the degrees there are no coefficients.
pub proof fn lemma_mul_coefficients(a: Seq<int>, b: Seq<int>, i: int)
    requires
        a.len() > 0,
        b.len() > 0,
    ensures
        0 <= i <= a.len() + b.len() - 2 ==> coeff(poly_mul(a, b), i) == sum_over(
            conv_term(a, b, i),
            window_lo(b.len(), i),
            window_hi(a.len(), i) + 1,
        ),
        i < 0 || i > a.len() + b.len() - 2 ==> coeff(poly_mul(a, b), i) == 0,
{
    lemma_mul_coeff(a, b, i);
    if 0 <= i <= a.len() + b.len() - 2 {
        lemma_conv_stored(a, b, i);
    } else {
        lemma_conv_above(a, b, i);
    }
}

/// The degree of a product of polynomials other than zero is the sum of the
/// degrees, and its leading coefficient is the product of the leading
/// coefficients, which is not zero.
pub proof fn lemma_mul_degree(a: Seq<int>, b: Seq<int>)
    requires
        is_normalized(a),
        is_normalized(b),
        a.len() > 0,
        b.len() > 0,
    ensures
        poly_mul(a, b).len() == a.len() + b.len() - 1,
        lead(poly_mul(a, b)) == lead(a) * lead(b),
        lead(poly_mul(a, b)) != 0,
{
    let len = (a.len() + b.len() - 1) as nat;
    let s = Seq::new(len, |n: int| conv(a, b, n));
    let n = a.len() + b.len() - 2;
    let top = a.len() - 1;
    lemma_conv_window(a, b, n, top, top + 1);
    let t = conv_term(a, b, n);
    assert(sum_over(t, top, top + 1) == sum_over(t, top, top) + t(top));
    assert(s[n] == lead(a) * lead(b));
    assert(lead(a) * lead(b) != 0) by (nonlinear_arith)
        requires
            lead(a) != 0,
            lead(b) != 0,
    ;
    lemma_normalized(s);
}

/// Multiplication is commutative.
pub proof fn lemma_mul_comm(a: Seq<int>, b: Seq<int>)
    ensures
        poly_mul(a, b) == poly_mul(b, a),
{
    let len: nat = if a.len() == 0 || b.len() == 0 {
        0
    } else {
        (a.len() + b.len() - 1) as nat
    };
    let s1 = Seq::new(len, |n: int| conv(a, b, n));
    let s2 = Seq::new(len, |n: int| conv(b, a, n));
    assert forall|n: int| 0 <= n < len implies s1[n] == s2[n] by {
        crate::series::lemma_cauchy_comm(coeffs_of(a), coeffs_of(b), n);
    }
    assert(s1 =~= s2);
}

/// The coefficients of a product.
pub proof fn lemma_mul_coeff(a: Seq<int>, b: Seq<int>, n: int)
    ensures
        coeff(poly_mul(a, b), n) == conv(a, b, n),
{
    let len: nat = if a.len() == 0 || b.len() == 0 {
        0
    } else {
        (a.len() + b.len() - 1) as nat
    };
    let s = Seq::new(len, |n: int| conv(a, b, n));
    lemma_normalized(s);
    assert(coeff(normalized(s), n) == coeff(s, n));
    if !(0 <= n < len) {
        if a.len() == 0 || b.len() == 0 {
            lemma_conv_zero(a, b, n);
        } else {
            lemma_conv_above(a, b, n);
        }
    }
}

/// The coefficients of a truncation.
pub proof fn lemma_trunc_coeff(a: Seq<int>, m: int, n: int)
    ensures
        coeff(poly_trunc(a, m), n) == (if n < m {
            coeff(a, n)
        } else {
            0
        }),
        poly_trunc(a, m).len() <= a.len(),
        m >= 0 ==> poly_trunc(a, m).len() <= m,
{
    let len: nat = if m <= 0 {
        0
    } else if m <= a.len() {
        m as nat
    } else {
        a.len()
    };
    let s = Seq::new(len, |i: int| a[i]);
    lemma_normalized(s);
    assert(coeff(normalized(s), n) == coeff(s, n));
}

/// The coefficients of a shifted polynomial.
pub proof fn lemma_shift_coeff(a: Seq<int>, k: int, n: int)
    ensures
        coeff(poly_left_shift(a, k), n) == (if n >= 0 {
            coeff(a, n - k)
        } else {
            0
        }),
        k >= 0 ==> poly_left_shift(a, k).len() <= a.len() + k,
        k <= 0 ==> poly_left_shift(a, k).len() <= a.len(),
{
}

/// The coefficients of a difference.
pub proof fn lemma_sub_coeff(a: Seq<int>, b: Seq<int>, n: int)
    ensures
        coeff(poly_sub(a, b), n) == coeff(a, n) - coeff(b, n),
        poly_sub(a, b).len() <= longer(a.len(), b.len()),
{
    let s = Seq::new(longer(a.len(), b.len()), |i: int| coeff(a, i) - coeff(b, i));
    lemma_normalized(s);
    assert(coeff(normalized(s), n) == coeff(s, n));
}

/// Every polynomial times zero is zero.
pub proof fn lemma_scale_zero(a: Seq<int>)
    ensures
        poly_scale(a, 0) == Seq::<int>::empty(),
{
    lemma_zeros_normalize(Seq::new(a.len(), |i: int| a[i] * 0));
}

} // verus!
