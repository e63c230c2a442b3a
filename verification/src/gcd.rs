//! The greatest common divisor of two polynomials.
//!
//! The contents of both polynomials are taken out, and the primitive parts go
//! through a sequence of pseudo-remainders, each made primitive before the
//! next division, until the remainder is zero.

use crate::content::{
    content, divide_with_integer, is_content, is_primitive, is_scaled, lemma_content_exists,
    lemma_content_nonzero, lemma_primitive_part, primitive_part,
};
use crate::exact::{divides_poly, is_product};
use crate::gauss::{lemma_gauss_signed, lemma_quotients, quotients};
use crate::integer::{int_gcd, val};
use crate::numbers::{
    all_divisible, divides, is_gcd_of, lemma_cancel, lemma_divides_basics, lemma_zero_divides,
};
use crate::poly::{
    coeff, coeffs_of, conv, is_normalized, lead, lemma_conv_constant, lemma_conv_scale,
    lemma_conv_zero, lemma_mul_coeff, lemma_normalized, longer, normalized, poly_mul,
};
use crate::product::mul_with_integer;
use crate::pseudo::{lemma_pow_nonzero, plain_pseudo_div_rem, pseudo_division};
use crate::series::{
    lemma_cauchy_assoc, lemma_cauchy_comm, lemma_cauchy_ext, lemma_cauchy_linear,
    lemma_cauchy_linear_right,
};
use crate::zzx::ZZX;
use rug::Integer;
use vstd::arithmetic::power::pow;
use vstd::prelude::*;

verus! {

/// `m * f = u * h`.
pub open spec fn is_multiple(f: Seq<int>, m: int, u: Seq<int>, h: Seq<int>) -> bool {
    forall|n: int| m * #[trigger] coeff(f, n) == conv(u, h, n)
}

/// `h` divides `f` over the rationals: some integer multiple of `f`, by an
/// integer other than zero, is a multiple of `h` with integer coefficients.
pub open spec fn divides_rationally(h: Seq<int>, f: Seq<int>) -> bool {
    exists|m: int, u: Seq<int>| m != 0 && #[trigger] is_multiple(f, m, u, h)
}

/// `m * f = s * a + t * b`.
pub open spec fn is_combined(
    f: Seq<int>,
    m: int,
    s: Seq<int>,
    a: Seq<int>,
    t: Seq<int>,
    b: Seq<int>,
) -> bool {
    forall|n: int| m * #[trigger] coeff(f, n) == conv(s, a, n) + conv(t, b, n)
}

/// Some integer multiple of `f`, by an integer other than zero, is a
/// combination `s * a + t * b` with polynomials `s` and `t`. Every common
/// divisor of `a` and `b` then divides `f` over the rationals.
pub open spec fn is_combination(f: Seq<int>, a: Seq<int>, b: Seq<int>) -> bool {
    exists|m: int, s: Seq<int>, t: Seq<int>| m != 0 && #[trigger] is_combined(f, m, s, a, t, b)
}

/// The polynomial `x * A + y * B` for integers `x` and `y`.
pub open spec fn lin2(a: Seq<int>, x: int, b: Seq<int>, y: int) -> Seq<int> {
    Seq::new(longer(a.len(), b.len()), |i: int| x * coeff(a, i) + y * coeff(b, i))
}

/// Multiplication of polynomials is associative.
pub proof fn lemma_conv_assoc(q: Seq<int>, u: Seq<int>, h: Seq<int>, n: int)
    ensures
        conv(poly_mul(q, u), h, n) == conv(q, poly_mul(u, h), n),
{
    let qu = coeffs_of(poly_mul(q, u));
    let uh = coeffs_of(poly_mul(u, h));
    assert forall|i: int| 0 <= i <= n implies #[trigger] qu(i) == conv(q, u, i) by {
        lemma_mul_coeff(q, u, i);
    }
    assert forall|i: int| 0 <= i <= n implies #[trigger] uh(i) == conv(u, h, i) by {
        lemma_mul_coeff(u, h, i);
    }
    lemma_cauchy_assoc(coeffs_of(q), coeffs_of(u), coeffs_of(h), qu, uh, n);
}

/// A product with `x * A + y * B` is `x` times the product with `A` plus `y`
/// times the product with `B`.
pub proof fn lemma_conv_lin2(a: Seq<int>, x: int, b: Seq<int>, y: int, h: Seq<int>, n: int)
    ensures
        conv(lin2(a, x, b, y), h, n) == x * conv(a, h, n) + y * conv(b, h, n),
{
    let l = coeffs_of(lin2(a, x, b, y));
    assert forall|j: int| 0 <= j <= n implies #[trigger] l(j) == x * coeffs_of(a)(j) + y
        * coeffs_of(b)(j) by {
        if j >= longer(a.len(), b.len()) {
            assert(x * 0 + y * 0 == 0);
        }
    }
    lemma_cauchy_linear(l, x, coeffs_of(a), y, coeffs_of(b), coeffs_of(h), n);
}

/// Where `z = x * A + y * B` coefficient by coefficient, a product with `z`
/// is `x` times the product with `A` plus `y` times the product with `B`.
pub proof fn lemma_conv_right_combination(
    q: Seq<int>,
    z: Seq<int>,
    x: int,
    a: Seq<int>,
    y: int,
    b: Seq<int>,
    n: int,
)
    requires
        forall|j: int| #[trigger] coeff(z, j) == x * coeff(a, j) + y * coeff(b, j),
    ensures
        conv(q, z, n) == x * conv(q, a, n) + y * conv(q, b, n),
{
    assert forall|j: int| 0 <= j <= n implies #[trigger] coeffs_of(z)(j) == x * coeffs_of(a)(j) + y
        * coeffs_of(b)(j) by {
        assert(coeff(z, j) == x * coeff(a, j) + y * coeff(b, j));
    }
    lemma_cauchy_linear_right(coeffs_of(q), coeffs_of(z), x, coeffs_of(a), y, coeffs_of(b), n);
}

/// The constant one is the unit of multiplication.
pub proof fn lemma_conv_one(a: Seq<int>, n: int)
    ensures
        conv(seq![1int], a, n) == coeff(a, n),
{
    lemma_cauchy_comm(coeffs_of(seq![1int]), coeffs_of(a), n);
    lemma_conv_constant(a, seq![1int], n);
}

/// Every polynomial divides itself and zero.
pub proof fn lemma_divides_rationally_basics(h: Seq<int>)
    ensures
        divides_rationally(h, h),
        divides_rationally(h, Seq::empty()),
{
    assert forall|n: int| 1 * #[trigger] coeff(h, n) == conv(seq![1int], h, n) by {
        lemma_conv_one(h, n);
    }
    assert(is_multiple(h, 1, seq![1int], h));
    assert forall|n: int| 1 * #[trigger] coeff(Seq::<int>::empty(), n) == conv(
        Seq::<int>::empty(),
        h,
        n,
    ) by {
        lemma_conv_zero(Seq::<int>::empty(), h, n);
    }
    assert(is_multiple(Seq::<int>::empty(), 1, Seq::<int>::empty(), h));
}

/// What divides `g` divides `c * g`.
pub proof fn lemma_divides_scaled_up(h: Seq<int>, f: Seq<int>, g: Seq<int>, c: int)
    requires
        is_scaled(f, g, c),
        divides_rationally(h, g),
    ensures
        divides_rationally(h, f),
{
    let (m, u) = choose|m: int, u: Seq<int>| m != 0 && #[trigger] is_multiple(g, m, u, h);
    let u2 = lin2(u, c, Seq::empty(), 0);
    assert forall|n: int| m * #[trigger] coeff(f, n) == conv(u2, h, n) by {
        assert(m * coeff(g, n) == conv(u, h, n));
        lemma_conv_lin2(u, c, Seq::empty(), 0, h, n);
        if 0 <= n < f.len() {
            assert(g[n] * c == f[n]);
        }
        assert(m * (coeff(g, n) * c) == c * (m * coeff(g, n))) by (nonlinear_arith);
    }
    assert(is_multiple(f, m, u2, h));
}

/// Where `g` divides `f`, so does `c * g` for an integer `c` other than zero.
pub proof fn lemma_scaled_divides(d: Seq<int>, g: Seq<int>, c: int, f: Seq<int>)
    requires
        c != 0,
        is_scaled(d, g, c),
        divides_rationally(g, f),
    ensures
        divides_rationally(d, f),
{
    let (m, u) = choose|m: int, u: Seq<int>| m != 0 && #[trigger] is_multiple(f, m, u, g);
    assert forall|n: int| (m * c) * #[trigger] coeff(f, n) == conv(u, d, n) by {
        assert(m * coeff(f, n) == conv(u, g, n));
        assert forall|j: int| #[trigger] coeff(d, j) == c * coeff(g, j) by {
            if 0 <= j < d.len() {
                assert(g[j] * c == d[j]);
            }
            assert(coeff(g, j) * c == c * coeff(g, j)) by (nonlinear_arith);
        }
        assert forall|j: int| #[trigger] coeff(u, j) == 1 * coeff(u, j) by {}
        lemma_conv_scale(u, g, u, d, 1, c, n);
        assert((m * c) * coeff(f, n) == 1 * c * (m * coeff(f, n))) by (nonlinear_arith);
    }
    assert(m * c != 0) by (nonlinear_arith)
        requires
            m != 0,
            c != 0,
    ;
    assert(is_multiple(f, m * c, u, d));
}

/// What divides the divisor and the remainder of a pseudo-division divides
/// the dividend.
pub proof fn lemma_divides_dividend(
    h: Seq<int>,
    f1: Seq<int>,
    f2: Seq<int>,
    q: Seq<int>,
    r: Seq<int>,
    p: int,
)
    requires
        p != 0,
        forall|n: int| p * #[trigger] coeff(f1, n) == conv(q, f2, n) + coeff(r, n),
        divides_rationally(h, f2),
        divides_rationally(h, r),
    ensures
        divides_rationally(h, f1),
{
    let (m2, u2) = choose|m: int, u: Seq<int>| m != 0 && #[trigger] is_multiple(f2, m, u, h);
    let (mr, ur) = choose|m: int, u: Seq<int>| m != 0 && #[trigger] is_multiple(r, m, u, h);
    let u = lin2(poly_mul(q, u2), mr, ur, m2);
    let m = m2 * mr * p;
    assert forall|n: int| m * #[trigger] coeff(f1, n) == conv(u, h, n) by {
        lemma_conv_lin2(poly_mul(q, u2), mr, ur, m2, h, n);
        lemma_conv_assoc(q, u2, h, n);
        // u2 * h = m2 * f2
        assert forall|j: int| #[trigger] coeff(poly_mul(u2, h), j) == m2 * coeff(f2, j) by {
            lemma_mul_coeff(u2, h, j);
            assert(m2 * coeff(f2, j) == conv(u2, h, j));
        }
        assert forall|j: int| #[trigger] coeff(q, j) == 1 * coeff(q, j) by {}
        lemma_conv_scale(q, f2, q, poly_mul(u2, h), 1, m2, n);
        assert(mr * coeff(r, n) == conv(ur, h, n));
        assert(p * coeff(f1, n) == conv(q, f2, n) + coeff(r, n));
        let x = conv(q, f2, n);
        let y = coeff(r, n);
        let z = coeff(f1, n);
        assert((m2 * mr * p) * z == (m2 * mr) * (p * z)) by (nonlinear_arith);
        assert((m2 * mr) * (x + y) == (m2 * mr) * x + (m2 * mr) * y) by (nonlinear_arith);
        assert(mr * (1 * m2 * x) == (m2 * mr) * x) by (nonlinear_arith);
        assert(m2 * (mr * y) == (m2 * mr) * y) by (nonlinear_arith);
    }
    assert(m != 0) by (nonlinear_arith)
        requires
            m == m2 * mr * p,
            m2 != 0,
            mr != 0,
            p != 0,
    ;
    assert(is_multiple(f1, m, u, h));
}

/// The remainder of a pseudo-division of combinations of `a` and `b` is a
/// combination of `a` and `b`.
pub proof fn lemma_remainder_combination(
    a: Seq<int>,
    b: Seq<int>,
    f1: Seq<int>,
    f2: Seq<int>,
    q: Seq<int>,
    r: Seq<int>,
    p: int,
)
    requires
        forall|n: int| p * #[trigger] coeff(f1, n) == conv(q, f2, n) + coeff(r, n),
        is_combination(f1, a, b),
        is_combination(f2, a, b),
    ensures
        is_combination(r, a, b),
{
    let (m1, s1, t1) = choose|m: int, s: Seq<int>, t: Seq<int>|
        m != 0 && #[trigger] is_combined(f1, m, s, a, t, b);
    let (m2, s2, t2) = choose|m: int, s: Seq<int>, t: Seq<int>|
        m != 0 && #[trigger] is_combined(f2, m, s, a, t, b);
    let s = lin2(s1, m2 * p, poly_mul(q, s2), -m1);
    let t = lin2(t1, m2 * p, poly_mul(q, t2), -m1);
    let m = m1 * m2;
    assert forall|n: int| m * #[trigger] coeff(r, n) == conv(s, a, n) + conv(t, b, n) by {
        lemma_conv_lin2(s1, m2 * p, poly_mul(q, s2), -m1, a, n);
        lemma_conv_lin2(t1, m2 * p, poly_mul(q, t2), -m1, b, n);
        lemma_conv_assoc(q, s2, a, n);
        lemma_conv_assoc(q, t2, b, n);
        // q * (s2 * a) + q * (t2 * b) = q * (m2 * f2)
        let z = Seq::new(f2.len(), |i: int| m2 * f2[i]);
        assert forall|j: int| #[trigger] coeff(z, j) == m2 * coeff(f2, j) by {
            if !(0 <= j < f2.len()) {
                assert(m2 * 0 == 0);
            }
        }
        assert forall|j: int|
            #[trigger] coeff(z, j) == 1 * coeff(poly_mul(s2, a), j) + 1 * coeff(
                poly_mul(t2, b),
                j,
            ) by {
            lemma_mul_coeff(s2, a, j);
            lemma_mul_coeff(t2, b, j);
            assert(m2 * coeff(f2, j) == conv(s2, a, j) + conv(t2, b, j));
            assert(coeff(z, j) == m2 * coeff(f2, j));
        }
        lemma_conv_right_combination(q, z, 1, poly_mul(s2, a), 1, poly_mul(t2, b), n);
        assert forall|j: int| #[trigger] coeff(q, j) == 1 * coeff(q, j) by {}
        lemma_conv_scale(q, f2, q, z, 1, m2, n);
        assert(m1 * coeff(f1, n) == conv(s1, a, n) + conv(t1, b, n));
        assert(p * coeff(f1, n) == conv(q, f2, n) + coeff(r, n));
        let c1 = conv(s1, a, n);
        let d1 = conv(t1, b, n);
        let c2 = conv(q, poly_mul(s2, a), n);
        let d2 = conv(q, poly_mul(t2, b), n);
        let x = conv(q, f2, n);
        let y = coeff(r, n);
        let w = coeff(f1, n);
        assert(c2 + d2 == m2 * x);
        assert((m2 * p) * c1 + (m2 * p) * d1 == (m2 * p) * (c1 + d1)) by (nonlinear_arith);
        assert((-m1) * c2 + (-m1) * d2 == -(m1 * (c2 + d2))) by (nonlinear_arith);
        assert((m2 * p) * (m1 * w) == (m1 * m2) * (p * w)) by (nonlinear_arith);
        assert(m1 * (m2 * x) == (m1 * m2) * x) by (nonlinear_arith);
        assert((m1 * m2) * (x + y) - (m1 * m2) * x == (m1 * m2) * y) by (nonlinear_arith);
    }
    assert(m != 0) by (nonlinear_arith)
        requires
            m == m1 * m2,
            m1 != 0,
            m2 != 0,
    ;
    assert(is_combined(r, m, s, a, t, b));
}

/// Where `c * g` is a combination of `a` and `b` for an integer `c` other
/// than zero, so is `g`, and the other way round.
pub proof fn lemma_combination_scaled(f: Seq<int>, g: Seq<int>, c: int, a: Seq<int>, b: Seq<int>)
    requires
        c != 0,
        is_scaled(f, g, c),
    ensures
        is_combination(f, a, b) == is_combination(g, a, b),
{
    assert forall|n: int| #[trigger] coeff(f, n) == coeff(g, n) * c by {
        if 0 <= n < f.len() {
            assert(g[n] * c == f[n]);
        } else {
            assert(coeff(g, n) * c == 0) by (nonlinear_arith)
                requires
                    coeff(g, n) == 0,
            ;
        }
    }
    if is_combination(f, a, b) {
        let (m, s, t) = choose|m: int, s: Seq<int>, t: Seq<int>|
            m != 0 && #[trigger] is_combined(f, m, s, a, t, b);
        assert forall|n: int| (m * c) * #[trigger] coeff(g, n) == conv(s, a, n) + conv(t, b, n) by {
            assert(m * coeff(f, n) == conv(s, a, n) + conv(t, b, n));
            assert(coeff(f, n) == coeff(g, n) * c);
            assert((m * c) * coeff(g, n) == m * (coeff(g, n) * c)) by (nonlinear_arith);
        }
        assert(m * c != 0) by (nonlinear_arith)
            requires
                m != 0,
                c != 0,
        ;
        assert(is_combined(g, m * c, s, a, t, b));
    }
    if is_combination(g, a, b) {
        let (m, s, t) = choose|m: int, s: Seq<int>, t: Seq<int>|
            m != 0 && #[trigger] is_combined(g, m, s, a, t, b);
        let s2 = lin2(s, c, Seq::empty(), 0);
        let t2 = lin2(t, c, Seq::empty(), 0);
        assert forall|n: int| m * #[trigger] coeff(f, n) == conv(s2, a, n) + conv(t2, b, n) by {
            assert(m * coeff(g, n) == conv(s, a, n) + conv(t, b, n));
            assert(coeff(f, n) == coeff(g, n) * c);
            lemma_conv_lin2(s, c, Seq::empty(), 0, a, n);
            lemma_conv_lin2(t, c, Seq::empty(), 0, b, n);
            let x = conv(s, a, n);
            let y = conv(t, b, n);
            assert(m * (coeff(g, n) * c) == c * x + c * y) by (nonlinear_arith)
                requires
                    m * coeff(g, n) == x + y,
            ;
        }
        assert(is_combined(f, m, s2, a, t2, b));
    }
}

/// Zero, `a` and `b` are combinations of `a` and `b`.
pub proof fn lemma_combination_basics(a: Seq<int>, b: Seq<int>)
    ensures
        is_combination(Seq::empty(), a, b),
        is_combination(a, a, b),
        is_combination(b, a, b),
{
    let zero = Seq::<int>::empty();
    let one = seq![1int];
    assert forall|n: int| 1 * #[trigger] coeff(zero, n) == conv(zero, a, n) + conv(zero, b, n) by {
        lemma_conv_zero(zero, a, n);
        lemma_conv_zero(zero, b, n);
    }
    assert(is_combined(zero, 1, zero, a, zero, b));
    assert forall|n: int| 1 * #[trigger] coeff(a, n) == conv(one, a, n) + conv(zero, b, n) by {
        lemma_conv_one(a, n);
        lemma_conv_zero(zero, b, n);
    }
    assert(is_combined(a, 1, one, a, zero, b));
    assert forall|n: int| 1 * #[trigger] coeff(b, n) == conv(zero, a, n) + conv(one, b, n) by {
        lemma_conv_one(b, n);
        lemma_conv_zero(zero, a, n);
    }
    assert(is_combined(b, 1, zero, a, one, b));
}

/// What the sequence of pseudo-remainders arrives at for `a` and `b`, neither
/// of them zero: `d` divides both over the rationals, it is a combination of
/// both, and it is a primitive polynomial times the greatest common divisor of
/// the contents of `a` and `b`. By the lemma of Gauss such a `d` is the
/// greatest common divisor: see [`lemma_gcd_is_greatest`].
pub open spec fn is_poly_gcd(d: Seq<int>, a: Seq<int>, b: Seq<int>) -> bool {
    &&& is_normalized(d)
    &&& lead(d) > 0
    &&& divides_rationally(d, a)
    &&& divides_rationally(d, b)
    &&& is_combination(d, a, b)
    &&& exists|g: Seq<int>, c: int|
        is_primitive(g) && is_gcd_of_contents(c, a, b) && #[trigger] is_scaled(d, g, c)
}

/// `c` is the greatest common divisor of the contents of `a` and `b`.
pub open spec fn is_gcd_of_contents(c: int, a: Seq<int>, b: Seq<int>) -> bool {
    exists|ca: int, cb: int|
        #![trigger is_content(ca, a), is_content(cb, b)]
        is_content(ca, a) && is_content(cb, b) && is_gcd_of(c, ca, cb)
}

/// `d` divides `a` and `b`, and every polynomial that divides `a` and `b`
/// divides `d`.
pub open spec fn is_greatest_common_divisor(d: Seq<int>, a: Seq<int>, b: Seq<int>) -> bool {
    &&& divides_poly(d, a)
    &&& divides_poly(d, b)
    &&& forall|h: Seq<int>|
        #[trigger] divides_poly(h, a) && divides_poly(h, b) ==> divides_poly(h, d)
}

/// Where `c * g` with a primitive `g` divides `a` over the rationals and `c`
/// divides the content of `a`, it divides `a`.
pub proof fn lemma_rational_divisor_divides(
    d: Seq<int>,
    g: Seq<int>,
    c: int,
    a: Seq<int>,
    ca: int,
)
    requires
        is_primitive(g),
        is_scaled(d, g, c),
        c != 0,
        is_content(ca, a),
        ca != 0,
        divides(c, ca),
        divides_rationally(d, a),
    ensures
        divides_poly(d, a),
{
    let (m, u0) = choose|m: int, u: Seq<int>| m != 0 && #[trigger] is_multiple(a, m, u, d);
    let a1 = quotients(a, ca);
    lemma_quotients(a, ca);
    let e = choose|e: int| ca == #[trigger] (e * c);
    let cu = Seq::new(u0.len(), |j: int| c * u0[j]);
    assert forall|j: int| #[trigger] coeff(cu, j) == c * coeff(u0, j) by {
        if !(0 <= j < u0.len()) {
            assert(c * 0 == 0);
        }
    }
    assert forall|j: int| #[trigger] coeff(d, j) == c * coeff(g, j) by {
        if 0 <= j < d.len() {
            assert(g[j] * c == d[j]);
            assert(g[j] * c == c * g[j]) by (nonlinear_arith);
        } else {
            assert(c * 0 == 0);
        }
    }
    assert forall|j: int| #[trigger] coeff(g, j) == 1 * coeff(g, j) by {}
    assert forall|j: int| #[trigger] coeff(u0, j) == 1 * coeff(u0, j) by {}
    let n = m * ca;
    assert(n != 0) by (nonlinear_arith)
        requires
            n == m * ca,
            m != 0,
            ca != 0,
    ;
    assert forall|k: int| #[trigger] conv(g, cu, k) == n * coeff(a1, k) by {
        lemma_conv_scale(g, u0, g, cu, 1, c, k);
        lemma_conv_scale(u0, g, u0, d, 1, c, k);
        lemma_cauchy_comm(coeffs_of(g), coeffs_of(u0), k);
        assert(m * coeff(a, k) == conv(u0, d, k));
        assert(coeff(a, k) == ca * coeff(a1, k));
        assert(m * (ca * coeff(a1, k)) == (m * ca) * coeff(a1, k)) by (nonlinear_arith);
    }
    lemma_gauss_signed(g, cu, n, a1);
    // c * u0 = x * m * ca = x * m * e * c, so m divides u0
    let x = quotients(cu, n);
    lemma_quotients(cu, n);
    let u = Seq::new(u0.len(), |j: int| x[j] * e);
    assert forall|j: int| #[trigger] coeff(u0, j) == m * coeff(u, j) by {
        if 0 <= j < u0.len() {
            assert(x[j] * n == cu[j]);
            assert(x[j] * n == c * (m * (x[j] * e))) by (nonlinear_arith)
                requires
                    n == m * ca,
                    ca == e * c,
            ;
            lemma_cancel(c, u0[j], m * (x[j] * e));
        } else {
            assert(m * 0 == 0);
        }
    }
    assert forall|j: int| #[trigger] coeff(d, j) == 1 * coeff(d, j) by {}
    assert forall|k: int| #[trigger] coeff(a, k) == conv(u, d, k) by {
        lemma_conv_scale(u, d, u0, d, m, 1, k);
        assert(m * coeff(a, k) == conv(u0, d, k));
        assert(m * 1 * conv(u, d, k) == m * conv(u, d, k)) by (nonlinear_arith);
        lemma_cancel(m, coeff(a, k), conv(u, d, k));
    }
    assert(is_product(a, u, d));
}

/// A polynomial in normal form that divides `a` and `b` divides what is a
/// combination of `a` and `b` and a multiple of the greatest common divisor
/// of their contents.
pub proof fn lemma_common_divisor_divides(
    d: Seq<int>,
    g: Seq<int>,
    c: int,
    a: Seq<int>,
    b: Seq<int>,
    h: Seq<int>,
)
    requires
        is_scaled(d, g, c),
        c != 0,
        is_gcd_of_contents(c, a, b),
        is_combination(d, a, b),
        is_normalized(h),
        h.len() > 0,
        divides_poly(h, a),
        divides_poly(h, b),
    ensures
        divides_poly(h, d),
{
    let x = choose|x: Seq<int>| #[trigger] is_product(a, x, h);
    let y = choose|y: Seq<int>| #[trigger] is_product(b, y, h);
    let (m, s, t) = choose|m: int, s: Seq<int>, t: Seq<int>|
        m != 0 && #[trigger] is_combined(d, m, s, a, t, b);
    let (ca, cb) = choose|ca: int, cb: int|
        #![trigger is_content(ca, a), is_content(cb, b)]
        is_content(ca, a) && is_content(cb, b) && is_gcd_of(c, ca, cb);
    // m * d = w * h
    let w = lin2(poly_mul(s, x), 1, poly_mul(t, y), 1);
    assert forall|k: int| #[trigger] conv(w, h, k) == m * coeff(d, k) by {
        lemma_conv_lin2(poly_mul(s, x), 1, poly_mul(t, y), 1, h, k);
        lemma_conv_assoc(s, x, h, k);
        lemma_conv_assoc(t, y, h, k);
        assert forall|j: int| 0 <= j <= k implies #[trigger] coeffs_of(poly_mul(x, h))(j)
            == coeffs_of(a)(j) by {
            lemma_mul_coeff(x, h, j);
            assert(coeff(a, j) == conv(x, h, j));
        }
        assert forall|j: int| 0 <= j <= k implies #[trigger] coeffs_of(poly_mul(y, h))(j)
            == coeffs_of(b)(j) by {
            lemma_mul_coeff(y, h, j);
            assert(coeff(b, j) == conv(y, h, j));
        }
        lemma_cauchy_ext(coeffs_of(s), coeffs_of(poly_mul(x, h)), coeffs_of(s), coeffs_of(a), k);
        lemma_cauchy_ext(coeffs_of(t), coeffs_of(poly_mul(y, h)), coeffs_of(t), coeffs_of(b), k);
        assert(m * coeff(d, k) == conv(s, a, k) + conv(t, b, k));
    }
    // h = ch * h1 with h1 primitive
    lemma_content_exists(h);
    let ch = choose|ch: int| is_content(ch, h);
    lemma_content_nonzero(ch, h);
    let h1 = quotients(h, ch);
    lemma_quotients(h, ch);
    lemma_primitive_part(h, h1, ch);
    // ch divides the contents of a and b, and so c
    assert forall|j: int| #[trigger] coeff(x, j) == 1 * coeff(x, j) by {}
    assert forall|j: int| #[trigger] coeff(y, j) == 1 * coeff(y, j) by {}
    assert forall|i: int| 0 <= i < a.len() implies divides(ch, #[trigger] a[i]) by {
        lemma_conv_scale(x, h1, x, h, 1, ch, i);
        assert(coeff(a, i) == conv(x, h, i));
        assert(a[i] == conv(x, h1, i) * ch) by (nonlinear_arith)
            requires
                a[i] == 1 * ch * conv(x, h1, i),
        ;
    }
    assert forall|i: int| 0 <= i < b.len() implies divides(ch, #[trigger] b[i]) by {
        lemma_conv_scale(y, h1, y, h, 1, ch, i);
        assert(coeff(b, i) == conv(y, h, i));
        assert(b[i] == conv(y, h1, i) * ch) by (nonlinear_arith)
            requires
                b[i] == 1 * ch * conv(y, h1, i),
        ;
    }
    assert(all_divisible(ch, a) && all_divisible(ch, b));
    assert(divides(ch, ca) && divides(ch, cb));
    assert(divides(ch, c));
    let e = choose|e: int| c == #[trigger] (e * ch);
    // h1 * (ch * w) = (m * c) * g
    let cw = Seq::new(w.len(), |j: int| ch * w[j]);
    assert forall|j: int| #[trigger] coeff(cw, j) == ch * coeff(w, j) by {
        if !(0 <= j < w.len()) {
            assert(ch * 0 == 0);
        }
    }
    assert forall|j: int| #[trigger] coeff(h1, j) == 1 * coeff(h1, j) by {}
    assert forall|j: int| #[trigger] coeff(w, j) == 1 * coeff(w, j) by {}
    let n = m * c;
    assert(n != 0) by (nonlinear_arith)
        requires
            n == m * c,
            m != 0,
            c != 0,
    ;
    assert forall|k: int| #[trigger] conv(h1, cw, k) == n * coeff(g, k) by {
        lemma_conv_scale(h1, w, h1, cw, 1, ch, k);
        lemma_conv_scale(w, h1, w, h, 1, ch, k);
        lemma_cauchy_comm(coeffs_of(h1), coeffs_of(w), k);
        assert(conv(w, h, k) == m * coeff(d, k));
        if 0 <= k < d.len() {
            assert(g[k] * c == d[k]);
        }
        assert(coeff(d, k) == coeff(g, k) * c) by {
            if !(0 <= k < d.len()) {
                assert(0 * c == 0);
            }
        }
        assert(m * (coeff(g, k) * c) == (m * c) * coeff(g, k)) by (nonlinear_arith);
    }
    lemma_gauss_signed(h1, cw, n, g);
    // ch * w = v * m * c = v * m * e * ch, so m divides w
    let v = quotients(cw, n);
    lemma_quotients(cw, n);
    let z = Seq::new(w.len(), |j: int| v[j] * e);
    assert forall|j: int| #[trigger] coeff(w, j) == m * coeff(z, j) by {
        if 0 <= j < w.len() {
            assert(v[j] * n == cw[j]);
            assert(v[j] * n == ch * (m * (v[j] * e))) by (nonlinear_arith)
                requires
                    n == m * c,
                    c == e * ch,
            ;
            lemma_cancel(ch, w[j], m * (v[j] * e));
        } else {
            assert(m * 0 == 0);
        }
    }
    assert forall|j: int| #[trigger] coeff(h, j) == 1 * coeff(h, j) by {}
    assert forall|k: int| #[trigger] coeff(d, k) == conv(z, h, k) by {
        lemma_conv_scale(z, h, w, h, m, 1, k);
        assert(conv(w, h, k) == m * coeff(d, k));
        assert(m * 1 * conv(z, h, k) == m * conv(z, h, k)) by (nonlinear_arith);
        lemma_cancel(m, coeff(d, k), conv(z, h, k));
    }
    assert(is_product(d, z, h));
}

/// What the greatest common divisor is: it divides both polynomials, and
/// every polynomial that divides both divides it.
pub proof fn lemma_gcd_is_greatest(d: Seq<int>, a: Seq<int>, b: Seq<int>)
    requires
        is_normalized(a),
        is_normalized(b),
        a.len() > 0,
        b.len() > 0,
        is_poly_gcd(d, a, b),
    ensures
        is_greatest_common_divisor(d, a, b),
{
    let (g, c) = choose|g: Seq<int>, c: int|
        is_primitive(g) && is_gcd_of_contents(c, a, b) && #[trigger] is_scaled(d, g, c);
    let (ca, cb) = choose|ca: int, cb: int|
        #![trigger is_content(ca, a), is_content(cb, b)]
        is_content(ca, a) && is_content(cb, b) && is_gcd_of(c, ca, cb);
    lemma_content_nonzero(ca, a);
    lemma_content_nonzero(cb, b);
    if c == 0 {
        lemma_zero_divides(ca);
    }
    lemma_rational_divisor_divides(d, g, c, a, ca);
    lemma_rational_divisor_divides(d, g, c, b, cb);
    assert forall|h: Seq<int>|
        #[trigger] divides_poly(h, a) && divides_poly(h, b) implies divides_poly(h, d) by {
        // the zeros at the end of h play no part
        let hn = normalized(h);
        lemma_normalized(h);
        let x = choose|x: Seq<int>| #[trigger] is_product(a, x, h);
        let y = choose|y: Seq<int>| #[trigger] is_product(b, y, h);
        assert forall|k: int|
            conv(x, hn, k) == conv(x, h, k) && conv(y, hn, k) == conv(y, h, k) by {
            assert forall|j: int| 0 <= j <= k implies #[trigger] coeffs_of(hn)(j) == coeffs_of(h)(
                j,
            ) by {
                assert(coeff(hn, j) == coeff(h, j));
            }
            lemma_cauchy_ext(coeffs_of(x), coeffs_of(hn), coeffs_of(x), coeffs_of(h), k);
            lemma_cauchy_ext(coeffs_of(y), coeffs_of(hn), coeffs_of(y), coeffs_of(h), k);
        }
        assert(is_product(a, x, hn)) by {
            assert forall|k: int| #[trigger] coeff(a, k) == conv(x, hn, k) by {
                assert(coeff(a, k) == conv(x, h, k));
                assert(conv(x, hn, k) == conv(x, h, k));
            }
        }
        assert(is_product(b, y, hn)) by {
            assert forall|k: int| #[trigger] coeff(b, k) == conv(y, hn, k) by {
                assert(coeff(b, k) == conv(y, h, k));
                assert(conv(y, hn, k) == conv(y, h, k));
            }
        }
        if hn.len() == 0 {
            assert(coeff(a, a.len() - 1) == conv(x, hn, a.len() - 1));
            lemma_conv_zero(x, hn, a.len() - 1);
        }
        lemma_common_divisor_divides(d, g, c, a, b, hn);
        let z = choose|z: Seq<int>| #[trigger] is_product(d, z, hn);
        assert forall|k: int| #[trigger] coeff(d, k) == conv(z, h, k) by {
            assert(coeff(d, k) == conv(z, hn, k));
            assert forall|j: int| 0 <= j <= k implies #[trigger] coeffs_of(hn)(j) == coeffs_of(h)(
                j,
            ) by {
                assert(coeff(hn, j) == coeff(h, j));
            }
            lemma_cauchy_ext(coeffs_of(z), coeffs_of(hn), coeffs_of(z), coeffs_of(h), k);
        }
        assert(is_product(d, z, h));
    }
}

/// The greatest common divisor of `a` and `b`, with a leading coefficient
/// that is not negative: it divides both, and every polynomial that divides
/// both divides it.
///
/// Where one of the two is zero, the result is the primitive part of the
/// other; where both are, it is zero.
pub fn gcd(a: &ZZX, b: &ZZX) -> (d: ZZX)
    ensures
        is_normalized(d@),
        lead(d@) >= 0,
        a@.len() == 0 ==> exists|c: int| is_content(c, b@) && #[trigger] is_scaled(b@, d@, c),
        b@.len() == 0 ==> exists|c: int| is_content(c, a@) && #[trigger] is_scaled(a@, d@, c),
        a@.len() > 0 && b@.len() > 0 ==> lead(d@) > 0 && is_greatest_common_divisor(d@, a@, b@),
{
    let _ = a.coeffs_ref();
    let _ = b.coeffs_ref();
    if a.is_zero() {
        let d = primitive_part(b);
        proof {
            let c = choose|c: int| is_content(c, b@) && #[trigger] is_scaled(b@, d@, c);
            if b@.len() > 0 {
                lemma_primitive_part(b@, d@, c);
            } else {
                assert forall|e: int| #[trigger] all_divisible(e, a@) implies divides(e, 0) by {
                    lemma_divides_basics(e);
                }
                assert(is_content(0, a@));
                assert(is_scaled(a@, d@, 0));
            }
        }
        return d;
    }
    if b.is_zero() {
        let d = primitive_part(a);
        proof {
            let c = choose|c: int| is_content(c, a@) && #[trigger] is_scaled(a@, d@, c);
            lemma_primitive_part(a@, d@, c);
        }
        return d;
    }
    let c1: Integer = content(a);
    let c2: Integer = content(b);
    let mut f1 = ZZX::new();
    let mut f2 = ZZX::new();
    let ok1: bool = divide_with_integer(&mut f1, a, &c1);
    let ok2: bool = divide_with_integer(&mut f2, b, &c2);
    let c: Integer = int_gcd(&c1, &c2);
    proof {
        lemma_content_nonzero(val(c1), a@);
        lemma_content_nonzero(val(c2), b@);
        lemma_primitive_part(a@, f1@, val(c1));
        lemma_primitive_part(b@, f2@, val(c2));
        lemma_combination_basics(a@, b@);
        lemma_combination_scaled(a@, f1@, val(c1), a@, b@);
        lemma_combination_scaled(b@, f2@, val(c2), a@, b@);
        assert forall|h: Seq<int>|
            #[trigger] divides_rationally(h, f1@) && divides_rationally(
                h,
                f2@,
            ) implies divides_rationally(h, a@) && divides_rationally(h, b@) by {
            lemma_divides_scaled_up(h, a@, f1@, val(c1));
            lemma_divides_scaled_up(h, b@, f2@, val(c2));
        }
        lemma_zero_divides(val(c1));
    }
    while !f2.is_zero()
        invariant
            is_normalized(f1@),
            is_normalized(f2@),
            is_primitive(f1@),
            f1@.len() > 0,
            f2@.len() > 0 ==> is_primitive(f2@),
            is_combination(f1@, a@, b@),
            is_combination(f2@, a@, b@),
            forall|h: Seq<int>|
                #[trigger] divides_rationally(h, f1@) && divides_rationally(h, f2@)
                    ==> divides_rationally(h, a@) && divides_rationally(h, b@),
        decreases f2@.len(),
    {
        let mut q = ZZX::new();
        let mut r = ZZX::new();
        let res = plain_pseudo_div_rem(&mut q, &mut r, &f1, &f2);
        let f3 = primitive_part(&r);
        proof {
            let k = res.unwrap() as nat;
            let p = pow(lead(f2@), k);
            lemma_pow_nonzero(lead(f2@), k);
            assert(pseudo_division(f1@, f2@, q@, r@, k));
            assert forall|n: int|
                p * #[trigger] coeff(f1@, n) == conv(q@, f2@, n) + coeff(r@, n) by {
                assert(pow(lead(f2@), k) * coeff(f1@, n) == conv(q@, f2@, n) + coeff(r@, n));
            }
            let cr = choose|c: int| is_content(c, r@) && #[trigger] is_scaled(r@, f3@, c);
            lemma_remainder_combination(a@, b@, f1@, f2@, q@, r@, p);
            if r@.len() > 0 {
                lemma_content_nonzero(cr, r@);
                lemma_combination_scaled(r@, f3@, cr, a@, b@);
                lemma_primitive_part(r@, f3@, cr);
            } else {
                assert(f3@ =~= Seq::<int>::empty());
                lemma_combination_basics(a@, b@);
            }
            assert forall|h: Seq<int>|
                #[trigger] divides_rationally(h, f2@) && divides_rationally(
                    h,
                    f3@,
                ) implies divides_rationally(h, a@) && divides_rationally(h, b@) by {
                lemma_divides_scaled_up(h, r@, f3@, cr);
                lemma_divides_dividend(h, f1@, f2@, q@, r@, p);
                assert(divides_rationally(h, f1@) && divides_rationally(h, f2@));
            }
        }
        f1 = f2;
        f2 = f3;
    }
    let mut d = ZZX::new();
    mul_with_integer(&mut d, &f1, &c);
    proof {
        let g = f1@;
        let cv = val(c);
        assert(f2@ =~= Seq::<int>::empty());
        lemma_divides_rationally_basics(g);
        assert(divides_rationally(g, f1@) && divides_rationally(g, f2@));
        // the greatest common divisor of the contents is positive
        assert(divides(cv, val(c1)));
        if cv == 0 {
            lemma_zero_divides(val(c1));
        }
        assert(cv > 0);
        let s = Seq::new(g.len(), |i: int| g[i] * cv);
        assert(s[g.len() - 1] > 0) by (nonlinear_arith)
            requires
                s[g.len() - 1] == g[g.len() - 1] * cv,
                g[g.len() - 1] > 0,
                cv > 0,
        ;
        assert(is_normalized(s));
        assert(d@ == s);
        assert(is_scaled(d@, g, cv));
        lemma_scaled_divides(d@, g, cv, a@);
        lemma_scaled_divides(d@, g, cv, b@);
        lemma_combination_scaled(d@, g, cv, a@, b@);
        assert(is_content(val(c1), a@) && is_content(val(c2), b@));
        assert(is_gcd_of_contents(cv, a@, b@));
        assert(is_poly_gcd(d@, a@, b@));
        lemma_gcd_is_greatest(d@, a@, b@);
    }
    d
}

} // verus!
