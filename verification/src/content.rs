//! The content and the primitive part of a polynomial, and division by an
//! integer.

use crate::error::ArithError;
use crate::integer::{
    int_below, int_div_rem, int_divisible, int_from_i64, int_gcd, int_is, int_neg, val, vals,
};
use crate::linear::negate;
use crate::numbers::{
    all_divisible, divides, lemma_divides_basics, lemma_divides_neg, lemma_divides_trans,
    lemma_rem_zero_iff_divides, lemma_zero_divides,
};
use crate::poly::{is_normalized, lead};
use crate::zzx::ZZX;
use rug::Integer;
use vstd::prelude::*;

verus! {

/// `c` is the content of `f`: the greatest common divisor of its
/// coefficients, with the sign of the leading coefficient. The content of
/// the zero polynomial is zero.
pub open spec fn is_content(c: int, f: Seq<int>) -> bool {
    &&& all_divisible(c, f)
    &&& forall|d: int| #[trigger] all_divisible(d, f) ==> divides(d, c)
    &&& lead(f) < 0 ==> c <= 0
    &&& lead(f) >= 0 ==> c >= 0
}

/// `a` is `c` times `q`, coefficient by coefficient.
pub open spec fn is_scaled(a: Seq<int>, q: Seq<int>, c: int) -> bool {
    &&& q.len() == a.len()
    &&& forall|i: int| 0 <= i < a.len() ==> #[trigger] q[i] * c == a[i]
}

/// The content of a polynomial that is not zero is not zero.
pub proof fn lemma_content_nonzero(c: int, f: Seq<int>)
    requires
        is_content(c, f),
        is_normalized(f),
        f.len() > 0,
    ensures
        c != 0,
{
    assert(divides(c, f[f.len() - 1]));
    lemma_zero_divides(f[f.len() - 1]);
}

/// A polynomial is primitive when its content is one: its coefficients have
/// no common divisor but `1` and `-1`, and its leading coefficient is
/// positive.
pub open spec fn is_primitive(g: Seq<int>) -> bool {
    is_content(1, g)
}

/// A polynomial other than zero, divided by its content, is primitive.
pub proof fn lemma_primitive_part(f: Seq<int>, g: Seq<int>, c: int)
    requires
        is_normalized(f),
        f.len() > 0,
        is_content(c, f),
        is_scaled(f, g, c),
    ensures
        is_primitive(g),
{
    lemma_content_nonzero(c, f);
    assert forall|i: int| 0 <= i < g.len() implies divides(1, #[trigger] g[i]) by {
        lemma_divides_basics(g[i]);
    }
    assert forall|d: int| #[trigger] all_divisible(d, g) implies divides(d, 1) by {
        // d * c divides every coefficient of f, so it divides c
        assert forall|i: int| 0 <= i < f.len() implies divides(d * c, #[trigger] f[i]) by {
            assert(divides(d, g[i]));
            let k = choose|k: int| g[i] == #[trigger] (k * d);
            assert(g[i] * c == f[i]);
            assert(f[i] == k * (d * c)) by (nonlinear_arith)
                requires
                    f[i] == g[i] * c,
                    g[i] == k * d,
            ;
        }
        assert(all_divisible(d * c, f));
        assert(divides(d * c, c));
        let k = choose|k: int| c == #[trigger] (k * (d * c));
        assert(1 == k * d) by (nonlinear_arith)
            requires
                c == k * (d * c),
                c != 0,
        ;
    }
    let top = f.len() - 1;
    assert(g[top] * c == f[top]);
    assert(lead(g) > 0) by (nonlinear_arith)
        requires
            lead(g) * c == lead(f),
            lead(f) != 0,
            lead(f) < 0 ==> c <= 0,
            lead(f) >= 0 ==> c >= 0,
    ;
}

/// Every sequence of coefficients has a content.
pub proof fn lemma_content_exists(f: Seq<int>)
    ensures
        exists|c: int| is_content(c, f),
{
    lemma_magnitude_exists(f);
    let g = choose|g: int|
        g >= 0 && all_divisible(g, f) && forall|d: int| #[trigger]
            all_divisible(d, f) ==> divides(d, g);
    if lead(f) < 0 {
        assert forall|i: int| 0 <= i < f.len() implies divides(-g, #[trigger] f[i]) by {
            lemma_divides_neg(g, f[i]);
        }
        assert forall|d: int| #[trigger] all_divisible(d, f) implies divides(d, -g) by {
            lemma_divides_neg(d, g);
        }
        assert(is_content(-g, f));
    } else {
        assert(is_content(g, f));
    }
}

/// Every sequence of coefficients has a greatest common divisor that is not
/// negative.
proof fn lemma_magnitude_exists(f: Seq<int>)
    ensures
        exists|g: int|
            g >= 0 && all_divisible(g, f) && forall|d: int| #[trigger]
                all_divisible(d, f) ==> divides(d, g),
    decreases f.len(),
{
    if f.len() == 0 {
        assert forall|d: int| #[trigger] all_divisible(d, f) implies divides(d, 0) by {
            lemma_divides_basics(d);
        }
        assert(0int >= 0 && all_divisible(0, f) && forall|d: int| #[trigger]
            all_divisible(d, f) ==> divides(d, 0));
    } else {
        let rest = f.drop_last();
        lemma_magnitude_exists(rest);
        let g0 = choose|g: int|
            g >= 0 && all_divisible(g, rest) && forall|d: int| #[trigger]
                all_divisible(d, rest) ==> divides(d, g);
        crate::numbers::lemma_gcd_exists(g0, f.last());
        let g = choose|g: int| crate::numbers::is_gcd_of(g, g0, f.last());
        assert forall|i: int| 0 <= i < f.len() implies divides(g, #[trigger] f[i]) by {
            if i < f.len() - 1 {
                assert(divides(g0, rest[i]));
                lemma_divides_trans(g, g0, f[i]);
            }
        }
        assert forall|d: int| #[trigger] all_divisible(d, f) implies divides(d, g) by {
            assert forall|i: int| 0 <= i < rest.len() implies divides(d, #[trigger] rest[i]) by {
                assert(rest[i] == f[i]);
            }
            assert(all_divisible(d, rest));
            assert(divides(d, g0));
            assert(divides(d, f[f.len() - 1]));
        }
        assert(g >= 0 && all_divisible(g, f) && forall|d: int| #[trigger]
            all_divisible(d, f) ==> divides(d, g));
    }
}

/// If `b` divides every coefficient of `a`, sets `q = a / b` and returns
/// `true`; otherwise returns `false` and leaves `q` as it is. Zero divides
/// only the zero polynomial.
pub fn divide_with_integer(q: &mut ZZX, a: &ZZX, b: &Integer) -> (res: bool)
    ensures
        res == all_divisible(val(*b), a@),
        res ==> is_normalized(final(q)@) && is_scaled(a@, final(q)@, val(*b)),
        !res ==> *final(q) == *old(q),
{
    let ap = a.coeffs_ref();
    if int_is(b, 0) {
        if ap.len() == 0 {
            *q = ZZX::new();
            return true;
        } else {
            proof {
                lemma_zero_divides(a@[a@.len() - 1]);
            }
            return false;
        }
    }
    if int_is(b, 1) {
        *q = a.clone();
        proof {
            assert forall|i: int| 0 <= i < a@.len() implies divides(1, #[trigger] a@[i]) by {
                lemma_divides_basics(a@[i]);
            }
        }
        return true;
    }
    if int_is(b, -1) {
        negate(q, a);
        proof {
            assert forall|i: int| 0 <= i < a@.len() implies divides(-1, #[trigger] a@[i]) by {
                lemma_divides_basics(a@[i]);
            }
        }
        return true;
    }
    let n: usize = ap.len();
    let mut v: Vec<Integer> = Vec::new();
    let mut i: usize = 0;
    while i < n
        invariant
            i <= n,
            n == ap.len(),
            v.len() == i,
            vals(ap@) == a@,
            val(*b) != 0,
            *q == *old(q),
            forall|j: int| 0 <= j < i ==> val(#[trigger] v@[j]) * val(*b) == a@[j],
            forall|j: int| 0 <= j < i ==> divides(val(*b), #[trigger] a@[j]),
        decreases n - i,
    {
        let (quot, rest) = int_div_rem(&ap[i], b);
        proof {
            lemma_rem_zero_iff_divides(a@[i as int], val(*b), val(quot), val(rest));
        }
        if !int_is(&rest, 0) {
            return false;
        }
        v.push(quot);
        i = i + 1;
    }
    proof {
        if n > 0 {
            assert(val(v@[n - 1]) * val(*b) == a@[n - 1]);
            assert(val(v@[n - 1]) != 0) by (nonlinear_arith)
                requires
                    val(v@[n - 1]) * val(*b) != 0,
            ;
        }
        assert(is_normalized(vals(v@)));
    }
    *q = ZZX::new_with_vec(v);
    true
}

/// Whether `b` divides every coefficient of `a`. Zero divides only the zero
/// polynomial.
pub fn divide_with_integer_(a: &ZZX, b: &Integer) -> (res: bool)
    ensures
        res == all_divisible(val(*b), a@),
{
    let ap = a.coeffs_ref();
    if int_is(b, 0) {
        proof {
            if ap.len() > 0 {
                lemma_zero_divides(a@[a@.len() - 1]);
            }
        }
        return ap.len() == 0;
    }
    if int_is(b, 1) || int_is(b, -1) {
        proof {
            assert forall|i: int| 0 <= i < a@.len() implies divides(val(*b), #[trigger] a@[i]) by {
                lemma_divides_basics(a@[i]);
            }
        }
        return true;
    }
    let n: usize = ap.len();
    let mut i: usize = 0;
    while i < n
        invariant
            i <= n,
            n == ap.len(),
            vals(ap@) == a@,
            forall|j: int| 0 <= j < i ==> divides(val(*b), #[trigger] a@[j]),
        decreases n - i,
    {
        if !int_divisible(&ap[i], b) {
            assert(!divides(val(*b), a@[i as int]));
            return false;
        }
        i = i + 1;
    }
    true
}

/// `q = a / b` for an integer `b`. Fails where `b` is zero or does not divide
/// every coefficient of `a`, and then leaves `q` as it is.
pub fn div_with_integer(q: &mut ZZX, a: &ZZX, b: &Integer) -> (res: Result<(), ArithError>)
    ensures
        match res {
            Ok(_) => val(*b) != 0 && is_normalized(final(q)@) && is_scaled(a@, final(q)@, val(*b)),
            Err(e) => {
                &&& *final(q) == *old(q)
                &&& (e == ArithError::DivisionByZero) == (val(*b) == 0)
                &&& e == ArithError::NotIntegral ==> !all_divisible(val(*b), a@)
                &&& e == ArithError::DivisionByZero || e == ArithError::NotIntegral
            },
        },
{
    if int_is(b, 0) {
        return Err(ArithError::DivisionByZero);
    }
    if !divide_with_integer(q, a, b) {
        return Err(ArithError::NotIntegral);
    }
    Ok(())
}

/// The content of `f`: the greatest common divisor of its coefficients, with
/// the sign of the leading coefficient.
pub fn content(f: &ZZX) -> (c: Integer)
    ensures
        is_content(val(c), f@),
{
    let fp = f.coeffs_ref();
    let mut res: Integer = int_from_i64(0);
    let mut i: usize = 0;
    proof {
        assert forall|d: int| #[trigger] all_divisible(d, f@.take(0)) implies divides(d, 0) by {
            lemma_divides_basics(d);
        }
    }
    while i < fp.len() && !int_is(&res, 1)
        invariant
            i <= fp.len(),
            vals(fp@) == f@,
            val(res) >= 0,
            all_divisible(val(res), f@.take(i as int)),
            forall|d: int| #[trigger] all_divisible(d, f@.take(i as int)) ==> divides(d, val(res)),
        decreases fp.len() - i,
    {
        let g: Integer = int_gcd(&res, &fp[i]);
        proof {
            let old_res = val(res);
            let gv = val(g);
            let s0 = f@.take(i as int);
            let s1 = f@.take(i as int + 1);
            assert forall|j: int| 0 <= j < s1.len() implies divides(gv, #[trigger] s1[j]) by {
                if j < i {
                    assert(divides(old_res, s0[j]));
                    lemma_divides_trans(gv, old_res, s1[j]);
                }
            }
            assert forall|d: int| #[trigger] all_divisible(d, s1) implies divides(d, gv) by {
                assert forall|j: int| 0 <= j < s0.len() implies divides(d, #[trigger] s0[j]) by {
                    assert(s0[j] == s1[j]);
                }
                assert(all_divisible(d, s0));
                assert(divides(d, old_res));
                assert(divides(d, s1[i as int]));
            }
        }
        res = g;
        i = i + 1;
    }
    proof {
        if val(res) == 1 {
            // one divides every coefficient, and a divisor of the coefficients
            // seen so far divides one
            let s1 = f@.take(i as int);
            assert forall|j: int| 0 <= j < f@.len() implies divides(1, #[trigger] f@[j]) by {
                lemma_divides_basics(f@[j]);
            }
            assert forall|d: int| #[trigger] all_divisible(d, f@) implies divides(d, 1) by {
                assert forall|j: int| 0 <= j < s1.len() implies divides(d, #[trigger] s1[j]) by {
                    assert(s1[j] == f@[j]);
                }
                assert(all_divisible(d, s1));
            }
        } else {
            assert(f@.take(fp.len() as int) =~= f@);
        }
    }
    if fp.len() > 0 && int_below(&fp[fp.len() - 1], 0) {
        proof {
            let c = val(res);
            assert forall|j: int| 0 <= j < f@.len() implies divides(-c, #[trigger] f@[j]) by {
                lemma_divides_neg(c, f@[j]);
            }
            assert forall|d: int| #[trigger] all_divisible(d, f@) implies divides(d, -c) by {
                lemma_divides_neg(d, c);
            }
        }
        res = int_neg(&res);
    }
    res
}

/// The primitive part of `f`: `f` divided by its content. The primitive part
/// of the zero polynomial is zero.
pub fn primitive_part(f: &ZZX) -> (pp: ZZX)
    ensures
        is_normalized(pp@),
        exists|c: int| is_content(c, f@) && #[trigger] is_scaled(f@, pp@, c),
        f@.len() > 0 ==> is_primitive(pp@),
{
    let _ = f.coeffs_ref();
    let mut pp = ZZX::new();
    let d: Integer = content(f);
    let ok = divide_with_integer(&mut pp, f, &d);
    proof {
        assert(ok);
        assert(is_scaled(f@, pp@, val(d)));
        if f@.len() > 0 {
            lemma_primitive_part(f@, pp@, val(d));
        }
    }
    pp
}

} // verus!
