//! Facts about whole numbers: divisibility, greatest common divisors and the
//! number of binary digits.

use vstd::arithmetic::power::{lemma_pow0, pow};
use vstd::prelude::*;

verus! {

/// The absolute value of an integer.
pub open spec fn abs(x: int) -> nat {
    if x < 0 {
        (-x) as nat
    } else {
        x as nat
    }
}

/// The number of binary digits of a natural number; zero has none.
pub open spec fn bit_length(n: nat) -> nat
    decreases n,
{
    if n == 0 {
        0
    } else {
        1 + bit_length(n / 2)
    }
}

/// The largest number of binary digits among the numbers of a sequence.
pub open spec fn max_bit_length(s: Seq<int>) -> nat
    decreases s.len(),
{
    if s.len() == 0 {
        0
    } else {
        let rest = max_bit_length(s.drop_last());
        let here = bit_length(abs(s.last()));
        if here > rest {
            here
        } else {
            rest
        }
    }
}

/// `d` divides `n`: some multiple of `d` is `n`. Zero divides only zero.
pub open spec fn divides(d: int, n: int) -> bool {
    exists|k: int| n == #[trigger] (k * d)
}

/// Every number of the sequence is a multiple of `d`.
pub open spec fn all_divisible(d: int, s: Seq<int>) -> bool {
    forall|i: int| 0 <= i < s.len() ==> divides(d, #[trigger] s[i])
}

/// No number of a sequence has more binary digits than the largest number of
/// binary digits among them.
pub proof fn lemma_max_bit_length(s: Seq<int>, i: int)
    requires
        0 <= i < s.len(),
    ensures
        bit_length(abs(s[i])) <= max_bit_length(s),
    decreases s.len(),
{
    if i < s.len() - 1 {
        lemma_max_bit_length(s.drop_last(), i);
    }
}

/// A number below `2^k` has `k` binary digits at most.
pub proof fn lemma_bit_length_bound(n: nat, k: nat)
    requires
        n < pow(2, k),
    ensures
        bit_length(n) <= k,
    decreases k,
{
    if n > 0 {
        if k == 0 {
            lemma_pow0(2);
        } else {
            reveal(pow);
            assert(pow(2, k) == 2 * pow(2, (k - 1) as nat));
            lemma_bit_length_bound(n / 2, (k - 1) as nat);
        }
    }
}

/// Where every number of a sequence is below `2^k` in magnitude, none has
/// more than `k` binary digits.
pub proof fn lemma_max_bit_length_bound(s: Seq<int>, k: nat)
    requires
        forall|i: int| 0 <= i < s.len() ==> abs(#[trigger] s[i]) < pow(2, k),
    ensures
        max_bit_length(s) <= k,
    decreases s.len(),
{
    if s.len() > 0 {
        lemma_max_bit_length_bound(s.drop_last(), k);
        lemma_bit_length_bound(abs(s.last()), k);
    }
}

/// `g` is the greatest common divisor of `a` and `b`: it is not negative, it
/// divides both, and every common divisor divides it.
pub open spec fn is_gcd_of(g: int, a: int, b: int) -> bool {
    &&& g >= 0
    &&& divides(g, a)
    &&& divides(g, b)
    &&& forall|d: int| #[trigger] divides(d, a) && divides(d, b) ==> divides(d, g)
}

/// Zero divides only zero.
pub proof fn lemma_zero_divides(n: int)
    ensures
        divides(0, n) == (n == 0),
{
    if n == 0 {
        assert(n == 0 * 0);
    }
    if divides(0, n) {
        let k = choose|k: int| n == #[trigger] (k * 0);
        assert(k * 0 == 0);
    }
}

/// Every number divides zero and itself, and one divides every number.
pub proof fn lemma_divides_basics(d: int)
    ensures
        divides(d, 0),
        divides(d, d),
        divides(1, d),
        divides(-1, d),
{
    assert(0 == 0 * d);
    assert(d == 1 * d);
    assert(d == d * 1);
    assert(d == (-d) * (-1));
}

/// Divisibility is transitive.
pub proof fn lemma_divides_trans(a: int, b: int, c: int)
    requires
        divides(a, b),
        divides(b, c),
    ensures
        divides(a, c),
{
    let k1 = choose|k: int| b == #[trigger] (k * a);
    let k2 = choose|k: int| c == #[trigger] (k * b);
    assert(c == (k2 * k1) * a) by (nonlinear_arith)
        requires
            b == k1 * a,
            c == k2 * b,
    ;
}

/// Divisibility does not depend on signs.
pub proof fn lemma_divides_neg(a: int, b: int)
    ensures
        divides(a, b) == divides(-a, b),
        divides(a, b) == divides(a, -b),
{
    if divides(a, b) {
        let k = choose|k: int| b == #[trigger] (k * a);
        assert(b == (-k) * (-a)) by (nonlinear_arith)
            requires
                b == k * a,
        ;
        assert(-b == (-k) * a) by (nonlinear_arith)
            requires
                b == k * a,
        ;
    }
    if divides(-a, b) {
        let k = choose|k: int| b == #[trigger] (k * (-a));
        assert(b == (-k) * a) by (nonlinear_arith)
            requires
                b == k * (-a),
        ;
    }
    if divides(a, -b) {
        let k = choose|k: int| -b == #[trigger] (k * a);
        assert(b == (-k) * a) by (nonlinear_arith)
            requires
                -b == k * a,
        ;
    }
}

/// A division leaves no remainder exactly when the divisor divides the
/// dividend.
pub proof fn lemma_rem_zero_iff_divides(a: int, b: int, q: int, r: int)
    requires
        b != 0,
        a == q * b + r,
        abs(r) < abs(b),
    ensures
        (r == 0) == divides(b, a),
{
    if r == 0 {
        assert(a == q * b);
    }
    if divides(b, a) {
        let k = choose|k: int| a == #[trigger] (k * b);
        assert(r == 0) by (nonlinear_arith)
            requires
                a == k * b,
                a == q * b + r,
                b != 0,
                (if r < 0 {
                    -r
                } else {
                    r
                }) < (if b < 0 {
                    -b
                } else {
                    b
                }),
        ;
    }
}

/// What divides two numbers divides their sum and their difference, and
/// what divides a number divides its multiples.
pub proof fn lemma_divides_linear(d: int, a: int, b: int, k: int)
    requires
        divides(d, a),
    ensures
        divides(d, b) ==> divides(d, a + b) && divides(d, a - b) && divides(d, b - a),
        divides(d, a + b) ==> divides(d, b),
        divides(d, k * a),
        divides(d, a * k),
{
    let x = choose|x: int| a == #[trigger] (x * d);
    if divides(d, b) {
        let y = choose|y: int| b == #[trigger] (y * d);
        assert(a + b == (x + y) * d) by (nonlinear_arith)
            requires
                a == x * d,
                b == y * d,
        ;
        assert(a - b == (x - y) * d) by (nonlinear_arith)
            requires
                a == x * d,
                b == y * d,
        ;
        assert(b - a == (y - x) * d) by (nonlinear_arith)
            requires
                a == x * d,
                b == y * d,
        ;
    }
    if divides(d, a + b) {
        let z = choose|z: int| a + b == #[trigger] (z * d);
        assert(b == (z - x) * d) by (nonlinear_arith)
            requires
                a == x * d,
                a + b == z * d,
        ;
    }
    assert(k * a == (k * x) * d) by (nonlinear_arith)
        requires
            a == x * d,
    ;
    assert(a * k == (k * x) * d) by (nonlinear_arith)
        requires
            a == x * d,
    ;
}

/// A factor other than zero can be cancelled.
pub proof fn lemma_cancel(c: int, a: int, b: int)
    requires
        c != 0,
        c * a == c * b,
    ensures
        a == b,
{
    assert(a == b) by (nonlinear_arith)
        requires
            c != 0,
            c * a == c * b,
    ;
}

/// Two numbers have a greatest common divisor.
pub proof fn lemma_gcd_exists(a: int, b: int)
    ensures
        exists|g: int| is_gcd_of(g, a, b),
    decreases abs(b),
{
    if b == 0 {
        let g: int = if a < 0 {
            -a
        } else {
            a
        };
        lemma_divides_basics(a);
        lemma_divides_neg(a, a);
        lemma_divides_basics(g);
        assert forall|d: int| #[trigger] divides(d, a) && divides(d, b) implies divides(d, g) by {
            lemma_divides_neg(d, a);
        }
        assert(is_gcd_of(g, a, b));
    } else {
        let m: int = if b < 0 {
            -b
        } else {
            b
        };
        let q = a / m;
        let r = a % m;
        assert(a == q * m + r && 0 <= r < m) by {
            vstd::arithmetic::div_mod::lemma_fundamental_div_mod(a, m);
            vstd::arithmetic::div_mod::lemma_mod_bound(a, m);
            assert(m * q == q * m) by (nonlinear_arith);
        }
        lemma_gcd_exists(b, r);
        let g = choose|g: int| is_gcd_of(g, b, r);
        // g divides a = q * m + r
        lemma_divides_neg(g, b);
        assert(divides(g, m));
        lemma_divides_linear(g, m, 0, q);
        lemma_divides_linear(g, q * m, r, 0);
        assert forall|d: int| #[trigger] divides(d, a) && divides(d, b) implies divides(d, g) by {
            lemma_divides_neg(d, b);
            assert(divides(d, m));
            lemma_divides_linear(d, m, 0, q);
            lemma_divides_linear(d, a, q * m, 0);
            assert(a - q * m == r);
        }
        assert(is_gcd_of(g, a, b));
    }
}

} // verus!
