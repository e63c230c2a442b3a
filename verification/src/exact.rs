//! Exact division: whether one polynomial divides another, and the
//! quotient where it does.

use crate::content::{
    content, divide_with_integer, divide_with_integer_, is_content, is_scaled,
    lemma_content_nonzero, lemma_primitive_part,
};
use crate::gauss::{lemma_gauss_signed, lemma_quotients, quotients};
use crate::division::lemma_multiple_degree;
use crate::integer::{
    int_div_rem, int_divisible, int_is, int_mul, int_sub, lemma_vals_update, val, vals,
};
use crate::numbers::{all_divisible, divides, lemma_cancel, lemma_rem_zero_iff_divides};
use crate::poly::{
    coeff, coeffs_of, conv, conv_term, is_normalized, lead, lemma_conv_constant, lemma_conv_scale,
    lemma_conv_window, lemma_conv_zero, lemma_normalized, normalized,
};
use crate::product::mul_with_integer;
use crate::pseudo::zeros;
use crate::series::{
    cauchy, lemma_cauchy_add_monomial, lemma_cauchy_comm, lemma_cauchy_ext, lemma_cauchy_linear,
    lemma_cauchy_zero_above, sum_over,
};
use crate::zzx::{clone_coeffs, ZZX};
use rug::Integer;
use vstd::prelude::*;

verus! {

/// `a` is the product of `q` and `b`.
pub open spec fn is_product(a: Seq<int>, q: Seq<int>, b: Seq<int>) -> bool {
    forall|n: int| #[trigger] coeff(a, n) == conv(q, b, n)
}

/// `h` divides `f`: `f` is `h` times a polynomial with integer coefficients.
pub open spec fn divides_poly(h: Seq<int>, f: Seq<int>) -> bool {
    exists|u: Seq<int>| #[trigger] is_product(f, u, h)
}

/// The quotient found so far by exact division before it works on index `i`:
/// the coefficients above `i`.
spec fn ed_q(qs: Seq<int>, i: int, dq: int) -> spec_fn(int) -> int {
    |j: int|
        if i < j <= dq {
            qs[j]
        } else {
            0
        }
}

/// What is left of the dividend before exact division works on index `i`.
spec fn ed_x(xs: Seq<int>, i: int, db: int) -> spec_fn(int) -> int {
    |m: int|
        if 0 <= m <= i + db {
            xs[m]
        } else {
            0
        }
}

/// One step of exact division keeps the relation between dividend, quotient
/// and what is left of the dividend.
proof fn lemma_exact_step(
    a: Seq<int>,
    b: Seq<int>,
    dq: int,
    i: int,
    qs: Seq<int>,
    xs: Seq<int>,
    qs2: Seq<int>,
    xs2: Seq<int>,
    t: int,
)
    requires
        b.len() > 0,
        a.len() == dq + b.len(),
        0 <= i <= dq,
        qs.len() == dq + 1,
        qs2.len() == dq + 1,
        xs.len() == a.len(),
        xs2.len() == a.len(),
        t * lead(b) == xs[i + b.len() - 1],
        qs2 == qs.update(i, t),
        forall|m: int| 0 <= m < i ==> xs2[m] == xs[m],
        forall|m: int| i <= m < i + b.len() - 1 ==> xs2[m] == xs[m] - t * b[m - i],
        forall|n: int|
            #[trigger] coeff(a, n) == cauchy(ed_q(qs, i, dq), coeffs_of(b), n) + ed_x(
                xs,
                i,
                b.len() - 1,
            )(n),
    ensures
        forall|n: int|
            #[trigger] coeff(a, n) == cauchy(ed_q(qs2, i - 1, dq), coeffs_of(b), n) + ed_x(
                xs2,
                i - 1,
                b.len() - 1,
            )(n),
{
    let db = b.len() - 1;
    let q1 = ed_q(qs, i, dq);
    let q2 = ed_q(qs2, i - 1, dq);
    let x1 = ed_x(xs, i, db);
    let x2 = ed_x(xs2, i - 1, db);
    let bf = coeffs_of(b);
    assert forall|j: int| #[trigger] q2(j) == 1 * q1(j) + (if j == i {
        t
    } else {
        0
    }) by {}
    assert forall|n: int| #[trigger] coeff(a, n) == cauchy(q2, bf, n) + x2(n) by {
        lemma_cauchy_add_monomial(q2, 1, q1, t, i, bf, n);
        assert(coeff(a, n) == cauchy(q1, bf, n) + x1(n));
        let bn = bf(n - i);
        if n < i {
            assert(bn == 0);
            assert(t * 0 == 0);
        } else if n < i + db {
        } else if n == i + db {
            assert(bn == lead(b));
        } else {
            assert(bn == 0);
            assert(t * 0 == 0);
        }
        assert(x2(n) == x1(n) - t * bn);
    }
}

/// What exact division has left of the dividend is the product of the
/// divisor and the part of the quotient that is still to be found: where
/// `qw` is a quotient of `a` by `b` that agrees above index `i` with the
/// coefficients found so far, what is left is `b` times the coefficients
/// `0..=i` of `qw`.
proof fn lemma_left_of_dividend(
    a: Seq<int>,
    b: Seq<int>,
    qw: Seq<int>,
    dq: int,
    i: int,
    qs: Seq<int>,
    xs: Seq<int>,
    n: int,
)
    requires
        b.len() > 0,
        -1 <= i <= dq,
        qs.len() == dq + 1,
        is_product(a, qw, b),
        forall|j: int| j > dq ==> #[trigger] coeff(qw, j) == 0,
        forall|j: int| i < j <= dq ==> #[trigger] qs[j] == coeff(qw, j),
        forall|m: int|
            #[trigger] coeff(a, m) == cauchy(ed_q(qs, i, dq), coeffs_of(b), m) + ed_x(
                xs,
                i,
                b.len() - 1,
            )(m),
    ensures
        ed_x(xs, i, b.len() - 1)(n) == conv(Seq::new((i + 1) as nat, |j: int| coeff(qw, j)), b, n),
{
    let low = Seq::new((i + 1) as nat, |j: int| coeff(qw, j));
    let found = ed_q(qs, i, dq);
    assert forall|j: int| 0 <= j <= n implies #[trigger] coeffs_of(low)(j) == 1 * coeffs_of(qw)(j)
        + (-1) * found(j) by {
        if j > dq {
            assert(coeff(qw, j) == 0);
        } else if j > i {
            assert(qs[j] == coeff(qw, j));
        }
    }
    lemma_cauchy_linear(coeffs_of(low), 1, coeffs_of(qw), -1, found, coeffs_of(b), n);
    assert(coeff(a, n) == conv(qw, b, n));
    assert(coeff(a, n) == cauchy(found, coeffs_of(b), n) + ed_x(xs, i, b.len() - 1)(n));
}

/// The coefficient that exact division finds next: where a quotient `qw`
/// exists, the leading coefficient of what is left of the dividend is
/// coefficient `i` of `qw` times the leading coefficient of the divisor.
proof fn lemma_next_coefficient(
    a: Seq<int>,
    b: Seq<int>,
    qw: Seq<int>,
    dq: int,
    i: int,
    qs: Seq<int>,
    xs: Seq<int>,
)
    requires
        b.len() > 0,
        0 <= i <= dq,
        qs.len() == dq + 1,
        xs.len() == dq + b.len(),
        is_product(a, qw, b),
        forall|j: int| j > dq ==> #[trigger] coeff(qw, j) == 0,
        forall|j: int| i < j <= dq ==> #[trigger] qs[j] == coeff(qw, j),
        forall|m: int|
            #[trigger] coeff(a, m) == cauchy(ed_q(qs, i, dq), coeffs_of(b), m) + ed_x(
                xs,
                i,
                b.len() - 1,
            )(m),
    ensures
        xs[i + b.len() - 1] == coeff(qw, i) * lead(b),
{
    let low = Seq::new((i + 1) as nat, |j: int| coeff(qw, j));
    let n = i + b.len() - 1;
    lemma_left_of_dividend(a, b, qw, dq, i, qs, xs, n);
    lemma_conv_window(low, b, n, i, i + 1);
    let t = conv_term(low, b, n);
    assert(sum_over(t, i, i + 1) == sum_over(t, i, i) + t(i));
}

/// A quotient has no coefficients above the difference of the degrees.
proof fn lemma_quotient_degree(a: Seq<int>, q: Seq<int>, b: Seq<int>)
    requires
        is_normalized(b),
        b.len() > 0,
        a.len() >= b.len(),
        is_product(a, q, b),
    ensures
        forall|j: int| j > a.len() - b.len() ==> #[trigger] coeff(q, j) == 0,
{
    let top = a.len() - b.len();
    assert forall|n: int| n > top + (b.len() - 1) implies #[trigger] conv(q, b, n) == 0 by {
        assert(coeff(a, n) == conv(q, b, n));
    }
    lemma_multiple_degree(q, b, top);
}

/// The leading coefficient and the constant term of a product are the
/// products of those of its factors.
proof fn lemma_product_ends(a: Seq<int>, q: Seq<int>, b: Seq<int>)
    requires
        is_normalized(b),
        b.len() > 0,
        a.len() >= b.len(),
        is_product(a, q, b),
    ensures
        lead(a) == coeff(q, a.len() - b.len()) * lead(b),
        coeff(a, 0) == coeff(q, 0) * coeff(b, 0),
{
    let dq = a.len() - b.len();
    lemma_quotient_degree(a, q, b);
    let low = Seq::new((dq + 1) as nat, |j: int| coeff(q, j));
    let n = a.len() - 1;
    assert forall|j: int| 0 <= j <= n implies #[trigger] coeffs_of(low)(j) == coeffs_of(q)(j) by {
        if j > dq {
            assert(coeff(q, j) == 0);
        }
    }
    lemma_cauchy_ext(coeffs_of(low), coeffs_of(b), coeffs_of(q), coeffs_of(b), n);
    lemma_conv_window(low, b, n, dq, dq + 1);
    let t = conv_term(low, b, n);
    assert(sum_over(t, dq, dq + 1) == sum_over(t, dq, dq) + t(dq));
    assert(coeff(a, n) == conv(q, b, n));
    lemma_conv_window(q, b, 0, 0, 1);
    let t0 = conv_term(q, b, 0);
    assert(sum_over(t0, 0, 1) == sum_over(t0, 0, 0) + t0(0));
    assert(coeff(a, 0) == conv(q, b, 0));
}

/// A constant that divides every coefficient of a polynomial divides the
/// polynomial.
proof fn lemma_constant_divides(a: Seq<int>, b: Seq<int>)
    requires
        b.len() == 1,
        all_divisible(b[0], a),
    ensures
        exists|q: Seq<int>| #[trigger] is_product(a, q, b),
{
    let q = Seq::new(
        a.len(),
        |i: int| choose|k: int| a[i] == #[trigger] (k * b[0]),
    );
    assert forall|n: int| #[trigger] coeff(a, n) == conv(q, b, n) by {
        lemma_conv_constant(q, b, n);
        if 0 <= n < a.len() {
            assert(divides(b[0], a[n]));
        }
    }
    assert(is_product(a, q, b));
}

/// Whether `bb` divides `aa` where one of the two is zero, where `bb` is
/// constant, and where `aa` has the smaller degree. Every polynomial divides
/// zero, and zero divides nothing else. A constant divides the polynomials
/// whose coefficients it divides. No polynomial divides one of a smaller
/// degree other than zero.
pub proof fn lemma_divides_simple(aa: Seq<int>, bb: Seq<int>)
    requires
        is_normalized(aa),
        is_normalized(bb),
    ensures
        aa.len() == 0 ==> divides_poly(bb, aa),
        aa.len() > 0 && bb.len() == 0 ==> !divides_poly(bb, aa),
        bb.len() == 1 ==> divides_poly(bb, aa) == all_divisible(bb[0], aa),
        0 < aa.len() < bb.len() ==> !divides_poly(bb, aa),
{
    let zero = Seq::<int>::empty();
    if aa.len() == 0 {
        assert forall|k: int| #[trigger] coeff(aa, k) == conv(zero, bb, k) by {
            lemma_conv_zero(zero, bb, k);
        }
        assert(is_product(aa, zero, bb));
    } else if bb.len() == 0 {
        if divides_poly(bb, aa) {
            let u = choose|u: Seq<int>| #[trigger] is_product(aa, u, bb);
            assert(coeff(aa, aa.len() - 1) == conv(u, bb, aa.len() - 1));
            lemma_conv_zero(u, bb, aa.len() - 1);
        }
    } else if aa.len() < bb.len() {
        if divides_poly(bb, aa) {
            let u = choose|u: Seq<int>| #[trigger] is_product(aa, u, bb);
            assert forall|n: int| n >= bb.len() - 1 implies #[trigger] conv(u, bb, n) == 0 by {
                assert(coeff(aa, n) == conv(u, bb, n));
            }
            lemma_multiple_degree(u, bb, -1);
            let top = aa.len() - 1;
            assert forall|j: int| 0 <= j <= top implies #[trigger] coeffs_of(u)(j) == 0 by {
                assert(coeff(u, j) == 0);
            }
            lemma_cauchy_zero_above(coeffs_of(u), coeffs_of(bb), 0, top + 1, top);
            assert(coeff(aa, top) == conv(u, bb, top));
        }
    }
    if bb.len() == 1 {
        if all_divisible(bb[0], aa) {
            lemma_constant_divides(aa, bb);
        }
        if divides_poly(bb, aa) {
            let u = choose|u: Seq<int>| #[trigger] is_product(aa, u, bb);
            assert forall|i: int| 0 <= i < aa.len() implies divides(bb[0], #[trigger] aa[i]) by {
                assert(coeff(aa, i) == conv(u, bb, i));
                lemma_conv_constant(u, bb, i);
                assert(aa[i] == coeff(u, i) * bb[0]);
            }
        }
    }
}

/// Where `bb` divides `aa`, the content of `bb` divides that of `aa`, and
/// the primitive part of `bb` divides that of `aa`: the quotient loses no
/// integer coefficient when the contents are taken out.
pub proof fn lemma_primitive_parts_divide(
    aa: Seq<int>,
    bb: Seq<int>,
    ca: int,
    cb: int,
    a: Seq<int>,
    b: Seq<int>,
)
    requires
        is_normalized(bb),
        bb.len() > 0,
        is_content(ca, aa),
        is_content(cb, bb),
        ca != 0,
        is_scaled(aa, a, ca),
        is_scaled(bb, b, cb),
        divides_poly(bb, aa),
    ensures
        divides(cb, ca),
        divides_poly(b, a),
{
    let u = choose|u: Seq<int>| #[trigger] is_product(aa, u, bb);
    lemma_content_nonzero(cb, bb);
    lemma_primitive_part(bb, b, cb);
    assert forall|j: int| #[trigger] coeff(bb, j) == cb * coeff(b, j) by {
        if 0 <= j < bb.len() {
            assert(b[j] * cb == bb[j]);
            assert(b[j] * cb == cb * b[j]) by (nonlinear_arith);
        } else {
            assert(cb * 0 == 0);
        }
    }
    assert forall|j: int| #[trigger] coeff(aa, j) == ca * coeff(a, j) by {
        if 0 <= j < aa.len() {
            assert(a[j] * ca == aa[j]);
            assert(a[j] * ca == ca * a[j]) by (nonlinear_arith);
        } else {
            assert(ca * 0 == 0);
        }
    }
    assert forall|j: int| #[trigger] coeff(u, j) == 1 * coeff(u, j) by {}
    assert forall|j: int| #[trigger] coeff(b, j) == 1 * coeff(b, j) by {}
    // the content of bb divides every coefficient of aa
    assert forall|i: int| 0 <= i < aa.len() implies divides(cb, #[trigger] aa[i]) by {
        lemma_conv_scale(u, b, u, bb, 1, cb, i);
        assert(coeff(aa, i) == conv(u, bb, i));
        assert(1 * cb * conv(u, b, i) == conv(u, b, i) * cb) by (nonlinear_arith);
    }
    assert(all_divisible(cb, aa));
    let e = choose|e: int| ca == #[trigger] (e * cb);
    // b * u = e * a, so e divides every coefficient of u
    assert forall|k: int| #[trigger] conv(b, u, k) == e * coeff(a, k) by {
        lemma_conv_scale(u, b, u, bb, 1, cb, k);
        lemma_cauchy_comm(coeffs_of(b), coeffs_of(u), k);
        assert(coeff(aa, k) == conv(u, bb, k));
        assert(1 * cb * conv(u, b, k) == cb * conv(u, b, k)) by (nonlinear_arith);
        assert(ca * coeff(a, k) == cb * (e * coeff(a, k))) by (nonlinear_arith)
            requires
                ca == e * cb,
        ;
        lemma_cancel(cb, conv(u, b, k), e * coeff(a, k));
    }
    assert(e != 0) by {
        if e == 0 {
            assert(0 * cb == 0);
        }
    }
    lemma_gauss_signed(b, u, e, a);
    let u1 = quotients(u, e);
    lemma_quotients(u, e);
    assert forall|k: int| #[trigger] coeff(a, k) == conv(u1, b, k) by {
        lemma_conv_scale(u1, b, u, b, e, 1, k);
        lemma_cauchy_comm(coeffs_of(b), coeffs_of(u), k);
        assert(conv(b, u, k) == e * coeff(a, k));
        assert(e * 1 * conv(u1, b, k) == e * conv(u1, b, k)) by (nonlinear_arith);
        lemma_cancel(e, coeff(a, k), conv(u1, b, k));
    }
    assert(is_product(a, u1, b));
}

/// Divides `a` by `b` coefficient by coefficient, from the leading
/// coefficient down. Gives up where a coefficient of the quotient is not an
/// integer, and where the division leaves a remainder.
fn schoolbook_division(q: &mut ZZX, a: &ZZX, b: &ZZX) -> (res: bool)
    requires
        b@.len() >= 1,
        a@.len() >= b@.len(),
    ensures
        res == divides_poly(b@, a@),
        res ==> is_normalized(final(q)@) && is_product(a@, final(q)@, b@),
        !res ==> *final(q) == *old(q),
{
    let ap = a.coeffs_ref();
    let bp = b.coeffs_ref();
    let la: usize = ap.len();
    let lb: usize = bp.len();
    let db: usize = lb - 1;
    let dq: usize = la - lb;
    let lc: Integer = bp[db].clone();
    let lc_is_one: bool = int_is(&lc, 1);
    let mut x: Vec<Integer> = clone_coeffs(ap);
    let mut qv: Vec<Integer> = zeros(dq + 1);
    let mut remaining: usize = dq + 1;
    let ghost possible = divides_poly(b@, a@);
    let ghost qw = if possible {
        choose|qw: Seq<int>| #[trigger] is_product(a@, qw, b@)
    } else {
        Seq::empty()
    };
    proof {
        let q0 = ed_q(vals(qv@), dq as int, dq as int);
        let x0 = ed_x(vals(x@), dq as int, db as int);
        assert forall|n: int| #[trigger] coeff(a@, n) == cauchy(q0, coeffs_of(b@), n) + x0(n) by {
            assert forall|j: int| 0 <= j <= n implies #[trigger] q0(j) == 0 by {}
            lemma_cauchy_zero_above(q0, coeffs_of(b@), 0, n + 1, n);
        }
        if possible {
            lemma_quotient_degree(a@, qw, b@);
        }
    }
    while remaining > 0
        invariant
            remaining <= dq + 1,
            dq + lb == la,
            db + 1 == lb,
            x.len() == la,
            qv.len() == dq + 1,
            a@.len() == la,
            b@.len() == lb,
            vals(bp@) == b@,
            lb == bp.len(),
            val(lc) == lead(b@),
            lc_is_one == (val(lc) == 1),
            val(lc) != 0,
            *q == *old(q),
            possible == divides_poly(b@, a@),
            possible ==> is_product(a@, qw, b@),
            possible ==> forall|j: int| j > dq ==> #[trigger] coeff(qw, j) == 0,
            possible ==> forall|j: int|
                remaining <= j <= dq ==> #[trigger] vals(qv@)[j] == coeff(qw, j),
            forall|n: int|
                #[trigger] coeff(a@, n) == cauchy(
                    ed_q(vals(qv@), remaining - 1, dq as int),
                    coeffs_of(b@),
                    n,
                ) + ed_x(vals(x@), remaining - 1, db as int)(n),
        decreases remaining,
    {
        let i: usize = remaining - 1;
        let ghost qs = vals(qv@);
        let ghost xs = vals(x@);
        proof {
            if possible {
                lemma_next_coefficient(a@, b@, qw, dq as int, i as int, qs, xs);
                assert(xs[i + db] == coeff(qw, i as int) * val(lc));
            }
        }
        let t: Integer = if !lc_is_one {
            let (tq, tr) = int_div_rem(&x[i + db], &lc);
            proof {
                lemma_rem_zero_iff_divides(xs[i + db], val(lc), val(tq), val(tr));
            }
            if !int_is(&tr, 0) {
                return false;
            }
            tq
        } else {
            x[i + db].clone()
        };
        proof {
            assert(val(t) * val(lc) == xs[i + db]);
            if possible {
                assert(val(t) == coeff(qw, i as int)) by (nonlinear_arith)
                    requires
                        val(t) * val(lc) == coeff(qw, i as int) * val(lc),
                        val(lc) != 0,
                ;
            }
        }
        proof {
            lemma_vals_update(qv@, i as int, t);
        }
        qv[i] = t.clone();
        let mut j: usize = db;
        while j > 0
            invariant
                j <= db,
                i + db < la,
                db + 1 == lb,
                x.len() == la,
                xs.len() == la,
                b@.len() == lb,
                vals(bp@) == b@,
                lb == bp.len(),
                forall|m: int|
                    (0 <= m < i + j || i + db <= m < la) ==> val(#[trigger] x@[m]) == xs[m],
                forall|m: int|
                    i + j <= m < i + db ==> val(#[trigger] x@[m]) == xs[m] - val(t) * b@[m - i],
            decreases j,
        {
            j = j - 1;
            let s: Integer = int_mul(&t, &bp[j]);
            let y: Integer = int_sub(&x[i + j], &s);
            x[i + j] = y;
        }
        proof {
            assert(vals(qv@) =~= qs.update(i as int, val(t)));
            lemma_exact_step(a@, b@, dq as int, i as int, qs, xs, vals(qv@), vals(x@), val(t));
        }
        remaining = remaining - 1;
    }
    let ghost xs = vals(x@);
    proof {
        if possible {
            // nothing of the quotient is still to be found: nothing is left
            assert forall|m: int| 0 <= m < db implies xs[m] == 0 by {
                lemma_left_of_dividend(a@, b@, qw, dq as int, -1, vals(qv@), xs, m);
                lemma_conv_zero(Seq::new(0, |j: int| coeff(qw, j)), b@, m);
            }
        }
    }
    let mut i: usize = 0;
    while i < db
        invariant
            i <= db,
            db < la,
            x.len() == la,
            xs == vals(x@),
            *q == *old(q),
            possible == divides_poly(b@, a@),
            possible ==> forall|m: int| 0 <= m < db ==> xs[m] == 0,
            forall|m: int| 0 <= m < i ==> val(#[trigger] x@[m]) == 0,
        decreases db - i,
    {
        if !int_is(&x[i], 0) {
            assert(xs[i as int] != 0);
            return false;
        }
        i = i + 1;
    }
    let ghost qf = vals(qv@);
    *q = ZZX::new_with_vec(qv);
    proof {
        lemma_normalized(qf);
        assert forall|n: int| #[trigger] coeff(a@, n) == conv(final(q)@, b@, n) by {
            let q0 = ed_q(qf, -1, dq as int);
            assert forall|j: int| 0 <= j <= n implies #[trigger] q0(j) == coeffs_of(final(q)@)(
                j,
            ) by {
                assert(coeff(normalized(qf), j) == coeff(qf, j));
            }
            lemma_cauchy_ext(q0, coeffs_of(b@), coeffs_of(final(q)@), coeffs_of(b@), n);
        }
        assert(is_product(a@, final(q)@, b@));
    }
    true
}

/// If `bb` divides `aa`, sets `qq = aa / bb` and returns `true`; otherwise
/// returns `false` and leaves `qq` as it is.
///
/// The contents of both polynomials are taken out first and divided as
/// integers. The primitive parts are then divided coefficient by
/// coefficient. The division is not cut short by the size of the
/// coefficients of the quotient: it ends with `false` at the first
/// coefficient that is not an integer, or at a remainder.
pub fn plain_divide(qq: &mut ZZX, aa: &ZZX, bb: &ZZX) -> (res: bool)
    ensures
        res == divides_poly(bb@, aa@),
        res ==> is_normalized(final(qq)@) && is_product(aa@, final(qq)@, bb@),
        !res ==> *final(qq) == *old(qq),
{
    let app = aa.coeffs_ref();
    let bpp = bb.coeffs_ref();
    proof {
        lemma_divides_simple(aa@, bb@);
    }
    if aa.is_zero() {
        *qq = ZZX::new();
        proof {
            assert forall|n: int| #[trigger] coeff(aa@, n) == conv(final(qq)@, bb@, n) by {
                lemma_conv_zero(final(qq)@, bb@, n);
            }
        }
        return true;
    }
    if bb.is_zero() {
        return false;
    }
    if bpp.len() == 1 {
        let b0: Integer = bb.const_term();
        let ok: bool = divide_with_integer(qq, aa, &b0);
        proof {
            if ok {
                assert forall|n: int| #[trigger] coeff(aa@, n) == conv(final(qq)@, bb@, n) by {
                    lemma_conv_constant(final(qq)@, bb@, n);
                }
            }
        }
        return ok;
    }
    let la: usize = app.len();
    let lb: usize = bpp.len();
    if la < lb {
        return false;
    }
    let ca: Integer = content(aa);
    let cb: Integer = content(bb);
    proof {
        lemma_content_nonzero(val(ca), aa@);
        lemma_content_nonzero(val(cb), bb@);
    }
    let mut a = ZZX::new();
    let mut b = ZZX::new();
    let oka: bool = divide_with_integer(&mut a, aa, &ca);
    let okb: bool = divide_with_integer(&mut b, bb, &cb);
    proof {
        assert(oka && okb);
        if divides_poly(bb@, aa@) {
            lemma_primitive_parts_divide(aa@, bb@, val(ca), val(cb), a@, b@);
        }
    }
    let (cq, cr) = int_div_rem(&ca, &cb);
    proof {
        lemma_rem_zero_iff_divides(val(ca), val(cb), val(cq), val(cr));
    }
    if !int_is(&cr, 0) {
        return false;
    }
    let a_lead: Integer = a.lead_coeff();
    let b_lead: Integer = b.lead_coeff();
    let a_const: Integer = a.const_term();
    let b_const: Integer = b.const_term();
    proof {
        if divides_poly(b@, a@) {
            let qw = choose|qw: Seq<int>| #[trigger] is_product(a@, qw, b@);
            lemma_product_ends(a@, qw, b@);
            assert(divides(val(b_lead), val(a_lead)));
            assert(divides(val(b_const), val(a_const)));
        }
    }
    if !int_divisible(&a_lead, &b_lead) {
        return false;
    }
    if !int_divisible(&a_const, &b_const) {
        return false;
    }
    let mut q = ZZX::new();
    if !schoolbook_division(&mut q, &a, &b) {
        return false;
    }
    mul_with_integer(qq, &q, &cq);
    proof {
        let sq = Seq::new(q@.len(), |i: int| q@[i] * val(cq));
        lemma_normalized(sq);
        assert forall|n: int| #[trigger] coeff(aa@, n) == conv(final(qq)@, bb@, n) by {
            assert(coeff(a@, n) == conv(q@, b@, n));
            // the contents: aa = ca * a, bb = cb * b, qq = cq * q, ca = cq * cb
            assert forall|j: int| #[trigger] coeff(final(qq)@, j) == val(cq) * coeff(q@, j) by {
                assert(coeff(normalized(sq), j) == coeff(sq, j));
                assert(coeff(q@, j) * val(cq) == val(cq) * coeff(q@, j)) by (nonlinear_arith);
            }
            assert forall|j: int| #[trigger] coeff(bb@, j) == val(cb) * coeff(b@, j) by {
                if 0 <= j < bb@.len() {
                    assert(b@[j] * val(cb) == bb@[j]);
                }
                assert(coeff(b@, j) * val(cb) == val(cb) * coeff(b@, j)) by (nonlinear_arith);
            }
            lemma_conv_scale(q@, b@, final(qq)@, bb@, val(cq), val(cb), n);
            assert(a@.len() == aa@.len());
            if 0 <= n < aa@.len() {
                assert(a@[n] * val(ca) == aa@[n]);
                assert(coeff(aa@, n) == coeff(a@, n) * val(ca));
            } else {
                assert(coeff(aa@, n) == 0 && coeff(a@, n) == 0);
                assert(coeff(a@, n) * val(ca) == 0) by (nonlinear_arith)
                    requires
                        coeff(a@, n) == 0,
                ;
            }
            assert(coeff(aa@, n) == val(cq) * val(cb) * conv(q@, b@, n)) by (nonlinear_arith)
                requires
                    coeff(aa@, n) == coeff(a@, n) * val(ca),
                    val(ca) == val(cq) * val(cb),
                    coeff(a@, n) == conv(q@, b@, n),
            ;
        }
        assert(is_product(aa@, final(qq)@, bb@));
    }
    true
}

/// Exact division for long polynomials: the same answer as
/// [`plain_divide`], by the same method.
pub fn hom_divide(q: &mut ZZX, a: &ZZX, b: &ZZX) -> (res: bool)
    ensures
        res == divides_poly(b@, a@),
        res ==> is_normalized(final(q)@) && is_product(a@, final(q)@, b@),
        !res ==> *final(q) == *old(q),
{
    plain_divide(q, a, b)
}

/// Whether `b` divides `a`, by [`plain_divide`].
pub fn plain_divide_(a: &ZZX, b: &ZZX) -> (res: bool)
    ensures
        res == divides_poly(b@, a@),
{
    let _ = a.coeffs_ref();
    let _ = b.coeffs_ref();
    proof {
        lemma_divides_simple(a@, b@);
    }
    if b.deg() == 0 {
        let b0: Integer = b.const_term();
        let ok: bool = divide_with_integer_(a, &b0);
        proof {
            if ok {
                lemma_constant_divides(a@, b@);
            }
        }
        ok
    } else {
        let mut q = ZZX::new();
        let ok: bool = plain_divide(&mut q, a, b);
        proof {
            if ok {
                assert(is_product(a@, q@, b@));
            }
        }
        ok
    }
}

/// Whether `b` divides `a`, by [`hom_divide`].
pub fn hom_divide_(a: &ZZX, b: &ZZX) -> (res: bool)
    ensures
        res == divides_poly(b@, a@),
{
    let _ = a.coeffs_ref();
    let _ = b.coeffs_ref();
    proof {
        lemma_divides_simple(a@, b@);
    }
    if b.deg() == 0 {
        let b0: Integer = b.const_term();
        let ok: bool = divide_with_integer_(a, &b0);
        proof {
            if ok {
                lemma_constant_divides(a@, b@);
            }
        }
        ok
    } else {
        let mut q = ZZX::new();
        let ok: bool = hom_divide(&mut q, a, b);
        proof {
            if ok {
                assert(is_product(a@, q@, b@));
            }
        }
        ok
    }
}

/// Whether `b` divides `a`.
pub fn divide_(a: &ZZX, b: &ZZX) -> (res: bool)
    ensures
        res == divides_poly(b@, a@),
{
    let da: i64 = a.deg();
    let db: i64 = b.deg();
    if db <= 8 || da - db <= 8 {
        plain_divide_(a, b)
    } else {
        hom_divide_(a, b)
    }
}

/// If `b` divides `a`, sets `q = a / b` and returns `true`; otherwise
/// returns `false` and leaves `q` as it is.
pub fn divide(q: &mut ZZX, a: &ZZX, b: &ZZX) -> (res: bool)
    ensures
        res == divides_poly(b@, a@),
        res ==> is_normalized(final(q)@) && is_product(a@, final(q)@, b@),
        !res ==> *final(q) == *old(q),
{
    plain_divide(q, a, b)
}

} // verus!
