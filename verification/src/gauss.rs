//! Primes and the lemma of Gauss: a primitive polynomial that divides an
//! integer multiple of a polynomial divides the polynomial itself.

use crate::content::{is_primitive, is_scaled};
use crate::numbers::{
    all_divisible, divides, lemma_cancel, lemma_divides_basics, lemma_divides_linear,
    lemma_divides_neg, lemma_divides_trans,
};
use crate::poly::{coeff, coeffs_of, conv, conv_term, lemma_conv_scale, poly_neg};
use crate::series::{lemma_cauchy_as_sum, lemma_sum_split, sum_over};
use vstd::prelude::*;

verus! {

/// A prime: a number from two on with no divisor between one and itself.
pub open spec fn is_prime(p: int) -> bool {
    p >= 2 && forall|d: int| 1 <= d <= p && #[trigger] divides(d, p) ==> d == 1 || d == p
}

/// A divisor of a positive number is not larger in magnitude.
pub proof fn lemma_divisor_bound(d: int, n: int)
    requires
        n >= 1,
        d >= 1,
        divides(d, n),
    ensures
        d <= n,
{
    let k = choose|k: int| n == #[trigger] (k * d);
    assert(d <= n) by (nonlinear_arith)
        requires
            n == k * d,
            n >= 1,
            d >= 1,
    ;
}

/// Every number from two on has a prime divisor.
pub proof fn lemma_prime_divisor(n: int)
    requires
        n >= 2,
    ensures
        exists|p: int| is_prime(p) && #[trigger] divides(p, n),
    decreases n,
{
    if is_prime(n) {
        lemma_divides_basics(n);
        assert(divides(n, n));
    } else {
        let d = choose|d: int| 1 <= d <= n && #[trigger] divides(d, n) && !(d == 1 || d == n);
        lemma_prime_divisor(d);
        let p = choose|p: int| is_prime(p) && #[trigger] divides(p, d);
        lemma_divides_trans(p, d, n);
    }
}

/// The lemma of Euclid for a factor below the prime: a prime that divides
/// `x * y` with `0 < x < p` divides `y`.
proof fn lemma_euclid_small(p: int, x: int, y: int)
    requires
        is_prime(p),
        0 < x < p,
        divides(p, x * y),
    ensures
        divides(p, y),
    decreases x,
{
    if x == 1 {
        assert(1 * y == y);
    } else {
        // p = k * x + r with 0 < r < x, and p divides r * y
        let k = p / x;
        let r = p % x;
        assert(p == k * x + r && 0 <= r < x) by {
            vstd::arithmetic::div_mod::lemma_fundamental_div_mod(p, x);
            vstd::arithmetic::div_mod::lemma_mod_bound(p, x);
            assert(x * k == k * x) by (nonlinear_arith);
        }
        if r == 0 {
            assert(p == k * x);
            assert(divides(x, p));
            assert(false);
        }
        lemma_divides_basics(p);
        lemma_divides_linear(p, p, 0, y);
        assert(divides(p, p * y));
        lemma_divides_linear(p, x * y, 0, k);
        assert(divides(p, k * (x * y)));
        lemma_divides_linear(p, p * y, k * (x * y), 0);
        assert(p * y - k * (x * y) == r * y) by (nonlinear_arith)
            requires
                p == k * x + r,
        ;
        lemma_euclid_small(p, r, y);
    }
}

/// The lemma of Euclid: a prime that divides a product divides one of the
/// factors.
pub proof fn lemma_euclid(p: int, x: int, y: int)
    requires
        is_prime(p),
        divides(p, x * y),
    ensures
        divides(p, x) || divides(p, y),
{
    let q = x / p;
    let r = x % p;
    assert(x == q * p + r && 0 <= r < p) by {
        vstd::arithmetic::div_mod::lemma_fundamental_div_mod(x, p);
        vstd::arithmetic::div_mod::lemma_mod_bound(x, p);
        assert(p * q == q * p) by (nonlinear_arith);
    }
    if r == 0 {
        assert(x == q * p);
    } else {
        lemma_divides_basics(p);
        lemma_divides_linear(p, p, 0, q * y);
        assert(divides(p, (q * y) * p));
        assert(x * y - (q * y) * p == r * y) by (nonlinear_arith)
            requires
                x == q * p + r,
        ;
        lemma_divides_linear(p, x * y, (q * y) * p, 0);
        lemma_euclid_small(p, r, y);
    }
}

/// The first index from `from` on at which `p` does not divide the
/// coefficient of `g`, or the length of `g` where there is none.
pub open spec fn first_undivided(g: Seq<int>, p: int, from: int) -> int
    decreases g.len() - from,
{
    if from < 0 || from >= g.len() {
        g.len() as int
    } else if !divides(p, g[from]) {
        from
    } else {
        first_undivided(g, p, from + 1)
    }
}

/// What [`first_undivided`] finds.
pub proof fn lemma_first_undivided(g: Seq<int>, p: int, from: int)
    requires
        0 <= from <= g.len(),
    ensures
        from <= first_undivided(g, p, from) <= g.len(),
        forall|i: int| from <= i < first_undivided(g, p, from) ==> divides(p, #[trigger] g[i]),
        first_undivided(g, p, from) < g.len() ==> !divides(p, g[first_undivided(g, p, from)]),
    decreases g.len() - from,
{
    if from < g.len() && divides(p, g[from]) {
        lemma_first_undivided(g, p, from + 1);
    }
}

/// A sum of multiples of `p` is a multiple of `p`.
pub proof fn lemma_sum_divisible(t: spec_fn(int) -> int, p: int, lo: int, hi: int)
    requires
        forall|j: int| lo <= j < hi ==> divides(p, #[trigger] t(j)),
    ensures
        divides(p, sum_over(t, lo, hi)),
    decreases hi - lo,
{
    if hi > lo {
        lemma_sum_divisible(t, p, lo, hi - 1);
        assert(divides(p, t(hi - 1)));
        lemma_divides_linear(p, sum_over(t, lo, hi - 1), t(hi - 1), 0);
    } else {
        lemma_divides_basics(p);
    }
}

/// A prime that divides every coefficient of a product divides every
/// coefficient of one of the factors.
pub proof fn lemma_prime_divides_factor(p: int, g: Seq<int>, u: Seq<int>)
    requires
        is_prime(p),
        forall|n: int| divides(p, #[trigger] conv(g, u, n)),
        !all_divisible(p, g),
    ensures
        all_divisible(p, u),
{
    if !all_divisible(p, u) {
        let i0 = first_undivided(g, p, 0);
        let j0 = first_undivided(u, p, 0);
        lemma_first_undivided(g, p, 0);
        lemma_first_undivided(u, p, 0);
        assert(i0 < g.len());
        assert(j0 < u.len());
        let n = i0 + j0;
        let t = conv_term(g, u, n);
        lemma_cauchy_as_sum(coeffs_of(g), coeffs_of(u), n, t);
        lemma_sum_split(t, 0, i0, n + 1);
        lemma_sum_split(t, i0, i0 + 1, n + 1);
        assert(sum_over(t, i0, i0 + 1) == sum_over(t, i0, i0) + t(i0));
        assert forall|i: int| 0 <= i < i0 implies divides(p, #[trigger] t(i)) by {
            assert(divides(p, g[i]));
            lemma_divides_linear(p, g[i], 0, coeff(u, n - i));
        }
        lemma_sum_divisible(t, p, 0, i0);
        assert forall|i: int| i0 + 1 <= i < n + 1 implies divides(p, #[trigger] t(i)) by {
            assert(divides(p, u[n - i]));
            lemma_divides_linear(p, u[n - i], 0, coeff(g, i));
        }
        lemma_sum_divisible(t, p, i0 + 1, n + 1);
        assert(divides(p, conv(g, u, n)));
        let first = sum_over(t, 0, i0);
        let last = sum_over(t, i0 + 1, n + 1);
        lemma_divides_linear(p, first, t(i0) + last, 0);
        lemma_divides_linear(p, last, t(i0), 0);
        assert(divides(p, t(i0)));
        lemma_euclid(p, g[i0], u[j0]);
        assert(false);
    }
}

/// The lemma of Gauss: where the product of a primitive polynomial `g` and a
/// polynomial `u` is `n` times a polynomial, `n` divides every coefficient of
/// `u`.
pub proof fn lemma_gauss(g: Seq<int>, u: Seq<int>, n: int, w: Seq<int>)
    requires
        is_primitive(g),
        n >= 1,
        forall|k: int| #[trigger] conv(g, u, k) == n * coeff(w, k),
    ensures
        all_divisible(n, u),
    decreases n,
{
    if n == 1 {
        assert forall|j: int| 0 <= j < u.len() implies divides(1, #[trigger] u[j]) by {
            lemma_divides_basics(u[j]);
        }
    } else {
        lemma_prime_divisor(n);
        let p = choose|p: int| is_prime(p) && #[trigger] divides(p, n);
        let m = choose|m: int| n == #[trigger] (m * p);
        assert(1 <= m < n) by (nonlinear_arith)
            requires
                n == m * p,
                p >= 2,
                n >= 1,
        ;
        // p divides every coefficient of the product, and not those of g
        assert forall|k: int| divides(p, #[trigger] conv(g, u, k)) by {
            assert(conv(g, u, k) == n * coeff(w, k));
            assert(n * coeff(w, k) == (m * coeff(w, k)) * p) by (nonlinear_arith)
                requires
                    n == m * p,
            ;
        }
        if all_divisible(p, g) {
            assert(divides(p, 1));
            lemma_divisor_bound(p, 1);
        }
        lemma_prime_divides_factor(p, g, u);
        // u = p * u1, and g * u1 = m * w
        let u1 = Seq::new(u.len(), |j: int| choose|x: int| u[j] == #[trigger] (x * p));
        assert forall|j: int| #[trigger] coeff(u, j) == p * coeff(u1, j) by {
            if 0 <= j < u.len() {
                assert(divides(p, u[j]));
                assert(u[j] == u1[j] * p);
                assert(u1[j] * p == p * u1[j]) by (nonlinear_arith);
            } else {
                assert(p * 0 == 0);
            }
        }
        assert forall|j: int| #[trigger] coeff(g, j) == 1 * coeff(g, j) by {}
        assert forall|k: int| #[trigger] conv(g, u1, k) == m * coeff(w, k) by {
            lemma_conv_scale(g, u1, g, u, 1, p, k);
            assert(conv(g, u, k) == n * coeff(w, k));
            assert(1 * p * conv(g, u1, k) == p * conv(g, u1, k)) by (nonlinear_arith);
            assert(n * coeff(w, k) == p * (m * coeff(w, k))) by (nonlinear_arith)
                requires
                    n == m * p,
            ;
            lemma_cancel(p, conv(g, u1, k), m * coeff(w, k));
        }
        lemma_gauss(g, u1, m, w);
        assert forall|j: int| 0 <= j < u.len() implies divides(n, #[trigger] u[j]) by {
            assert(divides(m, u1[j]));
            let x = choose|x: int| u1[j] == #[trigger] (x * m);
            assert(u[j] == u1[j] * p);
            assert(u[j] == x * n) by (nonlinear_arith)
                requires
                    u[j] == u1[j] * p,
                    u1[j] == x * m,
                    n == m * p,
            ;
        }
    }
}

/// The coefficients of `f` divided by `c`, for a `c` that divides all of
/// them.
pub open spec fn quotients(f: Seq<int>, c: int) -> Seq<int> {
    Seq::new(f.len(), |i: int| choose|x: int| f[i] == #[trigger] (x * c))
}

/// What [`quotients`] gives.
pub proof fn lemma_quotients(f: Seq<int>, c: int)
    requires
        all_divisible(c, f),
    ensures
        is_scaled(f, quotients(f, c), c),
        forall|j: int| #[trigger] coeff(f, j) == c * coeff(quotients(f, c), j),
{
    let q = quotients(f, c);
    assert forall|i: int| 0 <= i < f.len() implies #[trigger] q[i] * c == f[i] by {
        assert(divides(c, f[i]));
    }
    assert forall|j: int| #[trigger] coeff(f, j) == c * coeff(q, j) by {
        if 0 <= j < f.len() {
            assert(q[j] * c == f[j]);
            assert(q[j] * c == c * q[j]) by (nonlinear_arith);
        } else {
            assert(c * 0 == 0);
        }
    }
}

/// The lemma of Gauss for a factor of either sign: where the product of a
/// primitive polynomial `g` and a polynomial `u` is `n` times a polynomial
/// and `n` is not zero, `n` divides every coefficient of `u`.
pub proof fn lemma_gauss_signed(g: Seq<int>, u: Seq<int>, n: int, w: Seq<int>)
    requires
        is_primitive(g),
        n != 0,
        forall|k: int| #[trigger] conv(g, u, k) == n * coeff(w, k),
    ensures
        all_divisible(n, u),
{
    if n > 0 {
        lemma_gauss(g, u, n, w);
    } else {
        let w2 = poly_neg(w);
        assert forall|k: int| #[trigger] conv(g, u, k) == (-n) * coeff(w2, k) by {
            assert(conv(g, u, k) == n * coeff(w, k));
            assert((-n) * (-coeff(w, k)) == n * coeff(w, k)) by (nonlinear_arith);
            assert((-n) * 0 == 0);
        }
        lemma_gauss(g, u, -n, w2);
        assert forall|j: int| 0 <= j < u.len() implies divides(n, #[trigger] u[j]) by {
            lemma_divides_neg(n, u[j]);
        }
    }
}

} // verus!
