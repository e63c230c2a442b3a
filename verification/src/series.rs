//! Finite sums and the Cauchy product of coefficient functions.
//!
//! A polynomial is read here as the function that gives each index its
//! coefficient. The product of two such functions has at index `n` the sum of
//! `f(j) * g(n - j)` for `j` from `0` to `n`. The lemmas below are the ring
//! laws of that product, stated index by index, so that they apply to any
//! coefficient functions that agree on the indices a sum reads.

use vstd::prelude::*;

verus! {

/// The sum of `f(j)` for `lo <= j < hi`; zero when the range is empty.
pub open spec fn sum_over(f: spec_fn(int) -> int, lo: int, hi: int) -> int
    decreases hi - lo,
{
    if hi <= lo {
        0
    } else {
        sum_over(f, lo, hi - 1) + f(hi - 1)
    }
}

/// Coefficient `n` of the product of the coefficient functions `f` and `g`.
pub open spec fn cauchy(f: spec_fn(int) -> int, g: spec_fn(int) -> int, n: int) -> int {
    sum_over(|j: int| f(j) * g(n - j), 0, n + 1)
}

/// Sums of functions that agree on the range are equal.
pub proof fn lemma_sum_ext(f: spec_fn(int) -> int, g: spec_fn(int) -> int, lo: int, hi: int)
    requires
        forall|j: int| lo <= j < hi ==> #[trigger] f(j) == g(j),
    ensures
        sum_over(f, lo, hi) == sum_over(g, lo, hi),
    decreases hi - lo,
{
    if hi > lo {
        lemma_sum_ext(f, g, lo, hi - 1);
    }
}

/// A sum of zeros is zero.
pub proof fn lemma_sum_zero(f: spec_fn(int) -> int, lo: int, hi: int)
    requires
        forall|j: int| lo <= j < hi ==> #[trigger] f(j) == 0,
    ensures
        sum_over(f, lo, hi) == 0,
    decreases hi - lo,
{
    if hi > lo {
        lemma_sum_zero(f, lo, hi - 1);
    }
}

/// A range splits at any point inside it.
pub proof fn lemma_sum_split(f: spec_fn(int) -> int, lo: int, mid: int, hi: int)
    requires
        lo <= mid <= hi,
    ensures
        sum_over(f, lo, hi) == sum_over(f, lo, mid) + sum_over(f, mid, hi),
    decreases hi - mid,
{
    if hi > mid {
        lemma_sum_split(f, lo, mid, hi - 1);
    }
}

/// The first term can be taken out of a sum.
pub proof fn lemma_sum_first(f: spec_fn(int) -> int, lo: int, hi: int)
    requires
        lo < hi,
    ensures
        sum_over(f, lo, hi) == f(lo) + sum_over(f, lo + 1, hi),
{
    lemma_sum_split(f, lo, lo + 1, hi);
    assert(sum_over(f, lo, lo + 1) == sum_over(f, lo, lo) + f(lo));
}

/// A sum of `c1 * f + c2 * g` is `c1` times the sum of `f` plus `c2` times the
/// sum of `g`.
pub proof fn lemma_sum_linear(
    h: spec_fn(int) -> int,
    c1: int,
    f: spec_fn(int) -> int,
    c2: int,
    g: spec_fn(int) -> int,
    lo: int,
    hi: int,
)
    requires
        forall|j: int| lo <= j < hi ==> #[trigger] h(j) == c1 * f(j) + c2 * g(j),
    ensures
        sum_over(h, lo, hi) == c1 * sum_over(f, lo, hi) + c2 * sum_over(g, lo, hi),
    decreases hi - lo,
{
    if hi > lo {
        lemma_sum_linear(h, c1, f, c2, g, lo, hi - 1);
        let sf = sum_over(f, lo, hi - 1);
        let sg = sum_over(g, lo, hi - 1);
        let x = f(hi - 1);
        let y = g(hi - 1);
        assert(c1 * (sf + x) + c2 * (sg + y) == c1 * sf + c2 * sg + (c1 * x + c2 * y))
            by (nonlinear_arith);
    }
}

/// Moving the range by `k` and the argument back by `k` leaves a sum as it is.
pub proof fn lemma_sum_shift(
    f: spec_fn(int) -> int,
    g: spec_fn(int) -> int,
    k: int,
    lo: int,
    hi: int,
)
    requires
        forall|j: int| lo <= j < hi ==> #[trigger] g(j) == f(j + k),
    ensures
        sum_over(g, lo, hi) == sum_over(f, lo + k, hi + k),
    decreases hi - lo,
{
    if hi > lo {
        lemma_sum_shift(f, g, k, lo, hi - 1);
    }
}

/// Reading the terms from the other end leaves a sum as it is.
pub proof fn lemma_sum_reverse(
    f: spec_fn(int) -> int,
    g: spec_fn(int) -> int,
    s: int,
    lo: int,
    hi: int,
)
    requires
        forall|j: int| lo <= j < hi ==> #[trigger] g(j) == f(s - j),
    ensures
        sum_over(g, lo, hi) == sum_over(f, s - hi + 1, s - lo + 1),
    decreases hi - lo,
{
    if hi > lo {
        lemma_sum_reverse(f, g, s, lo, hi - 1);
        lemma_sum_first(f, s - hi + 1, s - lo + 1);
    }
}

/// The product at `n` is the sum of any terms that are, index by index, the
/// products of the two factors.
pub proof fn lemma_cauchy_as_sum(
    f: spec_fn(int) -> int,
    g: spec_fn(int) -> int,
    n: int,
    t: spec_fn(int) -> int,
)
    requires
        forall|j: int| 0 <= j <= n ==> #[trigger] t(j) == f(j) * g(n - j),
    ensures
        cauchy(f, g, n) == sum_over(t, 0, n + 1),
{
    let t0 = |j: int| f(j) * g(n - j);
    assert forall|j: int| 0 <= j < n + 1 implies #[trigger] t0(j) == t(j) by {}
    lemma_sum_ext(t0, t, 0, n + 1);
}

/// The product at `n` reads its factors only at the indices `0..=n`.
pub proof fn lemma_cauchy_ext(
    f1: spec_fn(int) -> int,
    g1: spec_fn(int) -> int,
    f2: spec_fn(int) -> int,
    g2: spec_fn(int) -> int,
    n: int,
)
    requires
        forall|j: int| 0 <= j <= n ==> #[trigger] f1(j) == f2(j),
        forall|j: int| 0 <= j <= n ==> #[trigger] g1(j) == g2(j),
    ensures
        cauchy(f1, g1, n) == cauchy(f2, g2, n),
{
    let t1 = |j: int| f1(j) * g1(n - j);
    let t2 = |j: int| f2(j) * g2(n - j);
    assert forall|j: int| 0 <= j < n + 1 implies #[trigger] t1(j) == t2(j) by {
        assert(f1(j) == f2(j));
        assert(g1(n - j) == g2(n - j));
    }
    lemma_sum_ext(t1, t2, 0, n + 1);
}

/// The product is commutative.
pub proof fn lemma_cauchy_comm(f: spec_fn(int) -> int, g: spec_fn(int) -> int, n: int)
    ensures
        cauchy(f, g, n) == cauchy(g, f, n),
{
    let t1 = |j: int| f(j) * g(n - j);
    let t2 = |j: int| g(j) * f(n - j);
    assert forall|j: int| 0 <= j < n + 1 implies #[trigger] t1(j) == t2(n - j) by {
        assert(f(j) * g(n - j) == g(n - j) * f(j)) by (nonlinear_arith);
    }
    lemma_sum_reverse(t2, t1, n, 0, n + 1);
}

/// The product is linear in its first factor.
pub proof fn lemma_cauchy_linear(
    h: spec_fn(int) -> int,
    c1: int,
    f1: spec_fn(int) -> int,
    c2: int,
    f2: spec_fn(int) -> int,
    g: spec_fn(int) -> int,
    n: int,
)
    requires
        forall|j: int| 0 <= j <= n ==> #[trigger] h(j) == c1 * f1(j) + c2 * f2(j),
    ensures
        cauchy(h, g, n) == c1 * cauchy(f1, g, n) + c2 * cauchy(f2, g, n),
{
    let th = |j: int| h(j) * g(n - j);
    let t1 = |j: int| f1(j) * g(n - j);
    let t2 = |j: int| f2(j) * g(n - j);
    assert forall|j: int| 0 <= j < n + 1 implies #[trigger] th(j) == c1 * t1(j) + c2 * t2(j) by {
        let x = f1(j);
        let y = f2(j);
        let z = g(n - j);
        assert(h(j) == c1 * x + c2 * y);
        assert((c1 * x + c2 * y) * z == c1 * (x * z) + c2 * (y * z)) by (nonlinear_arith);
    }
    lemma_sum_linear(th, c1, t1, c2, t2, 0, n + 1);
}

/// The product is linear in its second factor.
pub proof fn lemma_cauchy_linear_right(
    f: spec_fn(int) -> int,
    h: spec_fn(int) -> int,
    c1: int,
    g1: spec_fn(int) -> int,
    c2: int,
    g2: spec_fn(int) -> int,
    n: int,
)
    requires
        forall|j: int| 0 <= j <= n ==> #[trigger] h(j) == c1 * g1(j) + c2 * g2(j),
    ensures
        cauchy(f, h, n) == c1 * cauchy(f, g1, n) + c2 * cauchy(f, g2, n),
{
    lemma_cauchy_comm(f, h, n);
    lemma_cauchy_comm(f, g1, n);
    lemma_cauchy_comm(f, g2, n);
    lemma_cauchy_linear(h, c1, g1, c2, g2, f, n);
}

/// Multiplying a factor by `X^k` moves the product up by `k` places: where
/// `f2(j) = f(j - k)` and `f` is zero below index zero, the product of `f2`
/// and `g` at `n` is the product of `f` and `g` at `n - k`.
pub proof fn lemma_cauchy_shift(
    f2: spec_fn(int) -> int,
    f: spec_fn(int) -> int,
    g: spec_fn(int) -> int,
    k: int,
    n: int,
)
    requires
        k >= 0,
        forall|j: int| 0 <= j <= n ==> #[trigger] f2(j) == f(j - k),
        forall|j: int| -k <= j < 0 ==> #[trigger] f(j) == 0,
    ensures
        cauchy(f2, g, n) == cauchy(f, g, n - k),
{
    let t2 = |j: int| f2(j) * g(n - j);
    let t = |j: int| f(j) * g(n - k - j);
    if n < 0 {
        assert(sum_over(t2, 0, n + 1) == 0);
        assert(sum_over(t, 0, n - k + 1) == 0);
    } else if n < k {
        assert forall|j: int| 0 <= j < n + 1 implies #[trigger] t2(j) == 0 by {
            assert(f2(j) == f(j - k));
            assert(f(j - k) == 0);
        }
        lemma_sum_zero(t2, 0, n + 1);
        assert(sum_over(t, 0, n - k + 1) == 0);
    } else {
        lemma_sum_split(t2, 0, k, n + 1);
        assert forall|j: int| 0 <= j < k implies #[trigger] t2(j) == 0 by {
            assert(f2(j) == f(j - k));
            assert(f(j - k) == 0);
        }
        lemma_sum_zero(t2, 0, k);
        assert forall|j: int| 0 <= j < n - k + 1 implies #[trigger] t(j) == t2(j + k) by {
            assert(f2(j + k) == f(j + k - k));
        }
        lemma_sum_shift(t2, t, k, 0, n - k + 1);
    }
}

/// The first term of a product: `f(0) * g(n)` plus the product, one place
/// down, of `g` with `f` moved one place down.
pub proof fn lemma_cauchy_peel(
    f: spec_fn(int) -> int,
    f1: spec_fn(int) -> int,
    g: spec_fn(int) -> int,
    n: int,
)
    requires
        n >= 0,
        forall|j: int| 0 <= j < n ==> #[trigger] f1(j) == f(j + 1),
    ensures
        cauchy(f, g, n) == f(0) * g(n) + cauchy(f1, g, n - 1),
{
    let t = |j: int| f(j) * g(n - j);
    let t1 = |j: int| f1(j) * g(n - 1 - j);
    lemma_sum_first(t, 0, n + 1);
    assert forall|j: int| 0 <= j < n implies #[trigger] t1(j) == t(j + 1) by {
        assert(f1(j) == f(j + 1));
    }
    lemma_sum_shift(t, t1, 1, 0, n);
}

/// The product is associative: where `fg` is the product of `f` and `g`, and
/// `gh` that of `g` and `h`, the products of `fg` with `h` and of `f` with
/// `gh` agree.
pub proof fn lemma_cauchy_assoc(
    f: spec_fn(int) -> int,
    g: spec_fn(int) -> int,
    h: spec_fn(int) -> int,
    fg: spec_fn(int) -> int,
    gh: spec_fn(int) -> int,
    n: int,
)
    requires
        forall|i: int| 0 <= i <= n ==> #[trigger] fg(i) == cauchy(f, g, i),
        forall|i: int| 0 <= i <= n ==> #[trigger] gh(i) == cauchy(g, h, i),
    ensures
        cauchy(fg, h, n) == cauchy(f, gh, n),
    decreases n + 1,
{
    if n < 0 {
        assert(sum_over(|j: int| fg(j) * h(n - j), 0, n + 1) == 0);
        assert(sum_over(|j: int| f(j) * gh(n - j), 0, n + 1) == 0);
    } else {
        let f1 = |j: int| f(j + 1);
        // u = f1 * g, and u1 is u moved one place up
        let u = |i: int| cauchy(f1, g, i);
        let u1 = |i: int| u(i - 1);
        assert forall|i: int| 0 <= i <= n implies #[trigger] fg(i) == f(0) * g(i) + 1 * u1(i) by {
            lemma_cauchy_peel(f, f1, g, i);
            assert(fg(i) == cauchy(f, g, i));
        }
        lemma_cauchy_linear(fg, f(0), g, 1, u1, h, n);
        assert(u(-1) == 0) by {
            assert(sum_over(|j: int| f1(j) * g(-1 - j), 0, 0) == 0);
        }
        lemma_cauchy_shift(u1, u, h, 1, n);
        lemma_cauchy_assoc(f1, g, h, u, gh, n - 1);
        lemma_cauchy_peel(f, f1, gh, n);
        assert(gh(n) == cauchy(g, h, n));
    }
}

/// The coefficient function of the constant one.
pub open spec fn unit() -> spec_fn(int) -> int {
    |j: int| if j == 0 { 1int } else { 0int }
}

/// A factor that agrees with the constant one on `0..=n` leaves the other
/// factor as it is at `n`.
pub proof fn lemma_cauchy_unit(e: spec_fn(int) -> int, g: spec_fn(int) -> int, n: int)
    requires
        n >= 0,
        e(0) == 1,
        forall|j: int| 1 <= j <= n ==> #[trigger] e(j) == 0,
    ensures
        cauchy(e, g, n) == g(n),
{
    let t = |j: int| e(j) * g(n - j);
    lemma_sum_first(t, 0, n + 1);
    assert forall|j: int| 1 <= j < n + 1 implies #[trigger] t(j) == 0 by {
        assert(e(j) == 0);
    }
    lemma_sum_zero(t, 1, n + 1);
}

/// Adding `t * X^i` to `c` times a factor adds `t` times the other factor,
/// moved up by `i` places, to `c` times the product.
pub proof fn lemma_cauchy_add_monomial(
    f2: spec_fn(int) -> int,
    c: int,
    f: spec_fn(int) -> int,
    t: int,
    i: int,
    g: spec_fn(int) -> int,
    n: int,
)
    requires
        i >= 0,
        forall|j: int|
            0 <= j <= n ==> #[trigger] f2(j) == c * f(j) + (if j == i {
                t
            } else {
                0
            }),
        forall|j: int| j < 0 ==> #[trigger] g(j) == 0,
    ensures
        cauchy(f2, g, n) == c * cauchy(f, g, n) + t * g(n - i),
{
    let mono = |j: int| if j == i { 1int } else { 0int };
    assert forall|j: int| 0 <= j <= n implies #[trigger] f2(j) == c * f(j) + t * mono(j) by {
        assert(t * 1 == t && t * 0 == 0);
    }
    lemma_cauchy_linear(f2, c, f, t, mono, g, n);
    let one = unit();
    assert forall|j: int| 0 <= j <= n implies #[trigger] mono(j) == one(j - i) by {}
    assert forall|j: int| -i <= j < 0 implies #[trigger] one(j) == 0 by {}
    lemma_cauchy_shift(mono, one, g, i, n);
    if n - i >= 0 {
        lemma_cauchy_unit(one, g, n - i);
    } else {
        assert(sum_over(|j: int| one(j) * g(n - i - j), 0, n - i + 1) == 0);
        assert(g(n - i) == 0);
    }
}

/// A product is zero at `n` where every pair of indices that adds up to `n`
/// has a zero in one factor: `f` is zero from `fa` on and `g` from `gb` on,
/// with `fa + gb <= n + 1`.
pub proof fn lemma_cauchy_zero_above(
    f: spec_fn(int) -> int,
    g: spec_fn(int) -> int,
    fa: int,
    gb: int,
    n: int,
)
    requires
        forall|j: int| fa <= j <= n ==> #[trigger] f(j) == 0,
        forall|j: int| gb <= j <= n ==> #[trigger] g(j) == 0,
        fa + gb <= n + 1,
    ensures
        cauchy(f, g, n) == 0,
{
    let t = |j: int| f(j) * g(n - j);
    assert forall|j: int| 0 <= j < n + 1 implies #[trigger] t(j) == 0 by {
        if j >= fa {
            assert(f(j) == 0);
        } else {
            assert(g(n - j) == 0);
        }
        assert(f(j) * g(n - j) == 0) by (nonlinear_arith)
            requires
                f(j) == 0 || g(n - j) == 0,
        ;
    }
    lemma_sum_zero(t, 0, n + 1);
}

} // verus!
