//! Pseudo-division.
//!
//! The integers are not a field, so the division of one polynomial by another
//! does not always exist. Pseudo-division always does: it first multiplies
//! the dividend by a power of the leading coefficient of the divisor.

use crate::error::ArithError;
use crate::integer::{int_from_i64, int_is, int_mul, int_pow, int_sub, lemma_vals_update, val, vals};
use crate::poly::{coeff, coeffs_of, conv, is_normalized, lead, lemma_normalized, normalized};
use crate::series::{cauchy, lemma_cauchy_add_monomial, lemma_cauchy_ext, lemma_cauchy_zero_above};
use crate::zzx::{clone_coeffs, ZZX};
use rug::Integer;
use vstd::arithmetic::power::{lemma1_pow, lemma_pow0, lemma_pow1, lemma_pow_adds, pow};
use vstd::prelude::*;

verus! {

/// `q` and `r` are the pseudo-quotient and the pseudo-remainder of `a` by `b`
/// with exponent `k`: `lead(b)^k * a = q * b + r`, and the degree of `r` is
/// below that of `b`.
pub open spec fn pseudo_division(
    a: Seq<int>,
    b: Seq<int>,
    q: Seq<int>,
    r: Seq<int>,
    k: nat,
) -> bool {
    &&& is_normalized(q)
    &&& is_normalized(r)
    &&& r.len() < b.len()
    &&& forall|n: int| pow(lead(b), k) * #[trigger] coeff(a, n) == conv(q, b, n) + coeff(r, n)
}

/// The exponent that pseudo-division uses: one more than the difference of
/// the degrees, and zero where the dividend has the smaller degree.
pub open spec fn pseudo_exponent(a: Seq<int>, b: Seq<int>) -> nat {
    if a.len() >= b.len() {
        (a.len() - b.len() + 1) as nat
    } else {
        0
    }
}

/// The next power: `b^(e + 1) = b * b^e`.
pub proof fn lemma_pow_next(b: int, e: nat)
    ensures
        pow(b, e + 1) == b * pow(b, e),
{
    reveal(pow);
}

/// A power of a number other than zero is not zero.
pub proof fn lemma_pow_nonzero(b: int, e: nat)
    requires
        b != 0,
    ensures
        pow(b, e) != 0,
    decreases e,
{
    if e == 0 {
        lemma_pow0(b);
    } else {
        lemma_pow_nonzero(b, (e - 1) as nat);
        lemma_pow_next(b, (e - 1) as nat);
        assert(b * pow(b, (e - 1) as nat) != 0) by (nonlinear_arith)
            requires
                b != 0,
                pow(b, (e - 1) as nat) != 0,
        ;
    }
}

/// How often coefficient `m` of the dividend is multiplied by the leading
/// coefficient before the elimination starts.
spec fn scale_exp(dq: int, m: int) -> nat {
    if m < dq {
        (dq - m) as nat
    } else {
        0
    }
}

/// The quotient found so far, as the textbook algorithm would hold it before
/// it works on index `i`: the coefficients above `i`, each multiplied by the
/// leading coefficient once for every step taken since it was found.
spec fn pd_q(qs: Seq<int>, lc: int, i: int, dq: int) -> spec_fn(int) -> int {
    |j: int|
        if i < j <= dq {
            qs[j] * pow(lc, (j - i - 1) as nat)
        } else {
            0
        }
}

/// The dividend as the textbook algorithm would hold it before it works on
/// index `i`.
spec fn pd_x(xs: Seq<int>, a: Seq<int>, lc: int, i: int, dq: int, db: int) -> spec_fn(int) -> int {
    |m: int|
        if m < 0 {
            0
        } else if m <= i {
            pow(lc, (dq - i) as nat) * coeff(a, m)
        } else if m <= i + db {
            xs[m]
        } else {
            0
        }
}

/// One step of pseudo-division keeps the relation between dividend, quotient
/// and what is left of the dividend.
proof fn lemma_pseudo_step(
    a: Seq<int>,
    b: Seq<int>,
    dq: int,
    i: int,
    qs: Seq<int>,
    xs: Seq<int>,
    qs2: Seq<int>,
    xs2: Seq<int>,
    t: int,
)
    requires
        b.len() > 0,
        a.len() == dq + b.len(),
        0 <= i <= dq,
        qs.len() == dq + 1,
        qs2.len() == dq + 1,
        xs.len() == a.len(),
        xs2.len() == a.len(),
        xs[i] == a[i] * pow(lead(b), scale_exp(dq, i)),
        t == xs[i + b.len() - 1],
        qs2 == qs.update(i, t),
        forall|m: int| 0 <= m < i ==> xs2[m] == xs[m],
        forall|m: int| i <= m < i + b.len() - 1 ==> xs2[m] == lead(b) * xs[m] - t * b[m - i],
        forall|n: int|
            pow(lead(b), (dq - i) as nat) * #[trigger] coeff(a, n) == cauchy(
                pd_q(qs, lead(b), i, dq),
                coeffs_of(b),
                n,
            ) + pd_x(xs, a, lead(b), i, dq, b.len() - 1)(n),
    ensures
        forall|n: int|
            pow(lead(b), (dq - i + 1) as nat) * #[trigger] coeff(a, n) == cauchy(
                pd_q(qs2, lead(b), i - 1, dq),
                coeffs_of(b),
                n,
            ) + pd_x(xs2, a, lead(b), i - 1, dq, b.len() - 1)(n),
{
    let lc = lead(b);
    let db = b.len() - 1;
    let s = (dq - i) as nat;
    let q1 = pd_q(qs, lc, i, dq);
    let q2 = pd_q(qs2, lc, i - 1, dq);
    let x1 = pd_x(xs, a, lc, i, dq, db);
    let x2 = pd_x(xs2, a, lc, i - 1, dq, db);
    let bf = coeffs_of(b);
    lemma_pow_next(lc, s);
    lemma_pow0(lc);
    assert forall|j: int| #[trigger] q2(j) == lc * q1(j) + (if j == i {
        t
    } else {
        0
    }) by {
        if i < j <= dq {
            lemma_pow_next(lc, (j - i - 1) as nat);
            assert(qs[j] * (lc * pow(lc, (j - i - 1) as nat)) == lc * (qs[j] * pow(
                lc,
                (j - i - 1) as nat,
            ))) by (nonlinear_arith);
        } else if j == i {
            assert(t * 1 == t);
        }
    }
    assert forall|n: int|
        pow(lc, (dq - i + 1) as nat) * #[trigger] coeff(a, n) == cauchy(q2, bf, n) + x2(n) by {
        lemma_cauchy_add_monomial(q2, lc, q1, t, i, bf, n);
        let an = coeff(a, n);
        let p = pow(lc, s);
        assert(p * an == cauchy(q1, bf, n) + x1(n));
        assert((lc * p) * an == lc * (p * an)) by (nonlinear_arith);
        assert(lc * (cauchy(q1, bf, n) + x1(n)) == lc * cauchy(q1, bf, n) + lc * x1(n))
            by (nonlinear_arith);
        // what is left of the dividend: x2(n) = lc * x1(n) - t * b(n - i)
        let bn = bf(n - i);
        if n < 0 {
            assert(lc * 0 == 0 && t * 0 == 0);
        } else if n < i {
            assert(bn == 0);
            assert(t * 0 == 0);
            assert(lc * (p * an) == (lc * p) * an) by (nonlinear_arith);
        } else if n < i + db {
            if n == i {
                if i < dq {
                    assert(scale_exp(dq, i) == s);
                } else {
                    assert(scale_exp(dq, i) == 0 && s == 0);
                }
                assert(xs[i] == p * an) by (nonlinear_arith)
                    requires
                        xs[i] == an * p,
                ;
            }
            assert(x2(n) == lc * x1(n) - t * bn);
        } else if n == i + db {
            assert(bn == lc);
            assert(x1(n) == t);
            assert(lc * t - t * lc == 0) by (nonlinear_arith);
        } else {
            assert(bn == 0);
            assert(lc * 0 == 0 && t * 0 == 0);
        }
        assert(x2(n) == lc * x1(n) - t * bn);
    }
}

/// A vector of `n` zeros.
pub(crate) fn zeros(n: usize) -> (v: Vec<Integer>)
    ensures
        v.len() == n,
        forall|i: int| 0 <= i < n ==> val(#[trigger] v@[i]) == 0,
{
    let mut v: Vec<Integer> = Vec::new();
    let mut i: usize = 0;
    while i < n
        invariant
            i <= n,
            v.len() == i,
            forall|j: int| 0 <= j < i ==> val(#[trigger] v@[j]) == 0,
        decreases n - i,
    {
        v.push(int_from_i64(0));
        i = i + 1;
    }
    v
}

/// `base^e` for an exponent of any size.
pub(crate) fn power(base: &Integer, e: u64) -> (r: Integer)
    ensures
        val(r) == pow(val(*base), e as nat),
{
    let mut acc: Integer = int_from_i64(1);
    let mut left: u64 = e;
    proof {
        lemma_pow0(val(*base));
    }
    while left > 0xffff_ffffu64
        invariant
            left <= e,
            val(acc) == pow(val(*base), (e - left) as nat),
        decreases left,
    {
        let chunk: Integer = int_pow(base, 0xffff_ffffu32);
        proof {
            lemma_pow_adds(val(*base), (e - left) as nat, 0xffff_ffffnat);
        }
        acc = int_mul(&acc, &chunk);
        left = left - 0xffff_ffffu64;
    }
    let chunk: Integer = int_pow(base, left as u32);
    proof {
        lemma_pow_adds(val(*base), (e - left) as nat, left as nat);
    }
    int_mul(&acc, &chunk)
}

/// Pseudo-division: sets `q` and `r` so that `lead(b)^k * a = q * b + r` with
/// the degree of `r` below that of `b`, and returns `k`, which is one more
/// than the difference of the degrees of `a` and `b`, or zero where `a` has
/// the smaller degree. Fails, and leaves `q` and `r` as they are, where `b` is
/// zero.
pub fn plain_pseudo_div_rem(q: &mut ZZX, r: &mut ZZX, a: &ZZX, b: &ZZX) -> (res: Result<
    u64,
    ArithError,
>)
    ensures
        match res {
            Ok(k) => {
                &&& b@.len() > 0
                &&& k == pseudo_exponent(a@, b@)
                &&& pseudo_division(a@, b@, final(q)@, final(r)@, k as nat)
            },
            Err(e) => {
                &&& b@.len() == 0
                &&& e == ArithError::DivisionByZero
                &&& *final(q) == *old(q)
                &&& *final(r) == *old(r)
            },
        },
{
    let ap = a.coeffs_ref();
    let bp = b.coeffs_ref();
    let la: usize = ap.len();
    let lb: usize = bp.len();
    if lb == 0 {
        return Err(ArithError::DivisionByZero);
    }
    let ghost lcv = lead(b@);
    if la < lb {
        *r = a.clone();
        *q = ZZX::new();
        proof {
            lemma_pow0(lcv);
            assert forall|n: int| pow(lcv, 0) * #[trigger] coeff(a@, n) == conv(
                Seq::<int>::empty(),
                b@,
                n,
            ) + coeff(a@, n) by {
                lemma_cauchy_zero_above(coeffs_of(Seq::<int>::empty()), coeffs_of(b@), 0, n + 1, n);
            }
        }
        return Ok(0);
    }
    let db: usize = lb - 1;
    let dq: usize = la - lb;
    let lc: Integer = bp[db].clone();
    let lc_is_one: bool = int_is(&lc, 1);
    let mut x: Vec<Integer> = clone_coeffs(ap);

    // multiply the low coefficients of the dividend by the powers of the
    // leading coefficient that the elimination will not supply
    if !lc_is_one {
        let mut t: Integer = lc.clone();
        let mut i: usize = dq;
        proof {
            lemma_pow1(lcv);
        }
        while i > 0
            invariant
                i <= dq,
                dq + lb == la,
                x.len() == la,
                vals(ap@) == a@,
                val(lc) == lcv,
                i > 0 ==> val(t) == pow(lcv, (dq - i + 1) as nat),
                forall|m: int|
                    i <= m < dq ==> val(#[trigger] x@[m]) == a@[m] * pow(lcv, (dq - m) as nat),
                forall|m: int| (0 <= m < i || dq <= m < la) ==> val(#[trigger] x@[m]) == a@[m],
            decreases i,
        {
            i = i - 1;
            let y: Integer = int_mul(&x[i], &t);
            x[i] = y;
            if i > 0 {
                proof {
                    lemma_pow_next(lcv, (dq - i) as nat);
                    assert(pow(lcv, (dq - i) as nat) * lcv == lcv * pow(lcv, (dq - i) as nat))
                        by (nonlinear_arith);
                }
                t = int_mul(&t, &lc);
            }
        }
    }
    proof {
        assert forall|m: int| 0 <= m < la implies val(#[trigger] x@[m]) == a@[m] * pow(
            lcv,
            scale_exp(dq as int, m),
        ) by {
            lemma_pow0(lcv);
            assert(a@[m] * 1 == a@[m]);
            if lc_is_one {
                lemma1_pow(scale_exp(dq as int, m));
                assert(val(x@[m]) == vals(ap@)[m]);
            }
        }
    }

    let mut qv: Vec<Integer> = zeros(dq + 1);
    let mut remaining: usize = dq + 1;
    proof {
        lemma_pow0(lcv);
        let q0 = pd_q(vals(qv@), lcv, dq as int, dq as int);
        let x0 = pd_x(vals(x@), a@, lcv, dq as int, dq as int, db as int);
        assert forall|n: int| pow(lcv, 0) * #[trigger] coeff(a@, n) == cauchy(
            q0,
            coeffs_of(b@),
            n,
        ) + x0(n) by {
            assert forall|j: int| 0 <= j <= n implies #[trigger] q0(j) == 0 by {}
            lemma_cauchy_zero_above(q0, coeffs_of(b@), 0, n + 1, n);
            if dq < n < la {
                assert(scale_exp(dq as int, n) == 0);
                assert(a@[n] * 1 == a@[n]);
            }
            assert(1 * coeff(a@, n) == coeff(a@, n));
        }
    }
    while remaining > 0
        invariant
            remaining <= dq + 1,
            dq + lb == la,
            db + 1 == lb,
            x.len() == la,
            qv.len() == dq + 1,
            vals(ap@) == a@,
            vals(bp@) == b@,
            la == ap.len(),
            lb == bp.len(),
            val(lc) == lcv,
            lcv == lead(b@),
            lc_is_one == (lcv == 1),
            forall|m: int|
                0 <= m < remaining
                    ==> val(#[trigger] x@[m]) == a@[m] * pow(lcv, scale_exp(dq as int, m)),
            forall|n: int|
                pow(lcv, (dq + 1 - remaining) as nat) * #[trigger] coeff(a@, n) == cauchy(
                    pd_q(vals(qv@), lcv, remaining - 1, dq as int),
                    coeffs_of(b@),
                    n,
                ) + pd_x(vals(x@), a@, lcv, remaining - 1, dq as int, db as int)(n),
        decreases remaining,
    {
        let i: usize = remaining - 1;
        let t: Integer = x[i + db].clone();
        let ghost qs = vals(qv@);
        let ghost xs = vals(x@);
        proof {
            lemma_vals_update(qv@, i as int, t);
        }
        qv[i] = t.clone();
        let mut j: usize = db;
        while j > 0
            invariant
                j <= db,
                i + db < la,
                db + 1 == lb,
                x.len() == la,
                xs.len() == la,
                vals(bp@) == b@,
                lb == bp.len(),
                val(lc) == lcv,
                lc_is_one == (lcv == 1),
                forall|m: int|
                    (0 <= m < i + j || i + db <= m < la) ==> val(#[trigger] x@[m]) == xs[m],
                forall|m: int|
                    i + j <= m < i + db
                        ==> val(#[trigger] x@[m]) == lcv * xs[m] - val(t) * b@[m - i],
            decreases j,
        {
            j = j - 1;
            let s: Integer = int_mul(&t, &bp[j]);
            let mut y: Integer = x[i + j].clone();
            if !lc_is_one {
                y = int_mul(&y, &lc);
            }
            proof {
                assert(val(y) == lcv * xs[i + j]) by (nonlinear_arith)
                    requires
                        val(y) == xs[i + j] * lcv || (lcv == 1 && val(y) == xs[i + j]),
                ;
            }
            x[i + j] = int_sub(&y, &s);
        }
        proof {
            assert(vals(qv@) =~= qs.update(i as int, val(t)));
            lemma_pseudo_step(a@, b@, dq as int, i as int, qs, xs, vals(qv@), vals(x@), val(t));
        }
        remaining = remaining - 1;
    }

    // multiply the coefficients of the quotient by the powers of the leading
    // coefficient that the later steps would have supplied
    let ghost qn = vals(qv@);
    if !lc_is_one {
        let mut t: Integer = lc.clone();
        let mut i: usize = 1;
        proof {
            lemma_pow1(lcv);
        }
        while i <= dq
            invariant
                1 <= i <= dq + 1,
                qv.len() == dq + 1,
                qn.len() == dq + 1,
                val(lc) == lcv,
                i <= dq ==> val(t) == pow(lcv, i as nat),
                forall|j: int| 1 <= j < i ==> val(#[trigger] qv@[j]) == qn[j] * pow(lcv, j as nat),
                forall|j: int| (j == 0 || i <= j <= dq) ==> val(#[trigger] qv@[j]) == qn[j],
            decreases dq + 1 - i,
        {
            let y: Integer = int_mul(&qv[i], &t);
            qv[i] = y;
            if i < dq {
                proof {
                    lemma_pow_next(lcv, i as nat);
                    assert(pow(lcv, i as nat) * lcv == lcv * pow(lcv, i as nat))
                        by (nonlinear_arith);
                }
                t = int_mul(&t, &lc);
            }
            i = i + 1;
        }
    }
    x.truncate(db);
    let ghost qf = vals(qv@);
    let ghost xf = vals(x@);
    *q = ZZX::new_with_vec(qv);
    *r = ZZX::new_with_vec(x);
    proof {
        lemma_normalized(qf);
        lemma_normalized(xf);
        let q0 = pd_q(qn, lcv, -1, dq as int);
        assert forall|n: int| pow(lcv, (dq + 1) as nat) * #[trigger] coeff(a@, n) == conv(
            final(q)@,
            b@,
            n,
        ) + coeff(final(r)@, n) by {
            assert forall|j: int| 0 <= j <= n implies #[trigger] q0(j) == coeffs_of(final(q)@)(
                j,
            ) by {
                assert(coeff(normalized(qf), j) == coeff(qf, j));
                lemma_pow0(lcv);
                if j <= dq {
                    assert(qn[j] * 1 == qn[j]);
                    if lc_is_one {
                        lemma1_pow(j as nat);
                    }
                }
            }
            lemma_cauchy_ext(q0, coeffs_of(b@), coeffs_of(final(q)@), coeffs_of(b@), n);
            assert(coeff(normalized(xf), n) == coeff(xf, n));
        }
    }
    Ok((dq + 1) as u64)
}

/// The pseudo-remainder of `a` by `b`, and the exponent used.
pub fn pseudo_rem(r: &mut ZZX, a: &ZZX, b: &ZZX) -> (res: Result<u64, ArithError>)
    ensures
        match res {
            Ok(k) => {
                &&& b@.len() > 0
                &&& k == pseudo_exponent(a@, b@)
                &&& exists|q: Seq<int>| #[trigger] pseudo_division(a@, b@, q, final(r)@, k as nat)
            },
            Err(e) => {
                &&& b@.len() == 0
                &&& e == ArithError::DivisionByZero
                &&& *final(r) == *old(r)
            },
        },
{
    let mut q = ZZX::new();
    let res = plain_pseudo_div_rem(&mut q, r, a, b);
    proof {
        if let Ok(k) = res {
            assert(pseudo_division(a@, b@, q@, final(r)@, k as nat));
        }
    }
    res
}

/// The pseudo-quotient of `a` by `b`, and the exponent used.
pub fn pseudo_div(q: &mut ZZX, a: &ZZX, b: &ZZX) -> (res: Result<u64, ArithError>)
    ensures
        match res {
            Ok(k) => {
                &&& b@.len() > 0
                &&& k == pseudo_exponent(a@, b@)
                &&& exists|r: Seq<int>| #[trigger] pseudo_division(a@, b@, final(q)@, r, k as nat)
            },
            Err(e) => {
                &&& b@.len() == 0
                &&& e == ArithError::DivisionByZero
                &&& *final(q) == *old(q)
            },
        },
{
    let mut r = ZZX::new();
    let res = plain_pseudo_div_rem(q, &mut r, a, b);
    proof {
        if let Ok(k) = res {
            assert(pseudo_division(a@, b@, final(q)@, r@, k as nat));
        }
    }
    res
}

/// Pseudo-division of `a` by `b`: see [`plain_pseudo_div_rem`].
pub fn pseudo_div_rem(q: &mut ZZX, r: &mut ZZX, a: &ZZX, b: &ZZX) -> (res: Result<u64, ArithError>)
    ensures
        match res {
            Ok(k) => {
                &&& b@.len() > 0
                &&& k == pseudo_exponent(a@, b@)
                &&& pseudo_division(a@, b@, final(q)@, final(r)@, k as nat)
            },
            Err(e) => {
                &&& b@.len() == 0
                &&& e == ArithError::DivisionByZero
                &&& *final(q) == *old(q)
                &&& *final(r) == *old(r)
            },
        },
{
    plain_pseudo_div_rem(q, r, a, b)
}

} // verus!
