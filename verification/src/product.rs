//! Multiplication and squaring.
//!
//! Both are computed coefficient by coefficient from the definition of the
//! product. Faster strategies for large operands would sit behind the same
//! contracts; none is provided.

use crate::integer::{int_add, int_from_i64, int_is, int_mul, val, vals};
use crate::linear::trunc;
use crate::poly::{
    conv, conv_term, is_normalized, lead, lemma_conv_stored, lemma_mul_comm, lemma_mul_degree,
    lemma_sqr_is_mul, poly_mul, poly_scale, poly_sqr, poly_trunc, sqr_coeff, window_hi, window_lo,
};
use crate::series::sum_over;
use crate::zzx::{fits, ZZX};
use rug::Integer;
use vstd::prelude::*;

verus! {

/// Whether the product of polynomials with `m` and `n` coefficients can be
/// held: where neither is zero it has `m + n - 1` coefficients.
pub open spec fn product_fits(m: nat, n: nat) -> bool {
    m > 0 && n > 0 ==> fits(m + n - 1)
}

/// The sum of `a[j] * b[n - j]` for `lo <= j < hi`.
fn window_sum(ap: &Vec<Integer>, bp: &Vec<Integer>, n: usize, lo: usize, hi: usize) -> (r:
    Integer)
    requires
        lo <= hi <= ap.len(),
        hi <= n + 1,
        n < lo + bp.len(),
    ensures
        val(r) == sum_over(conv_term(vals(ap@), vals(bp@), n as int), lo as int, hi as int),
{
    let ghost t = conv_term(vals(ap@), vals(bp@), n as int);
    let mut accum: Integer = int_from_i64(0);
    let mut j: usize = lo;
    while j < hi
        invariant
            lo <= j <= hi <= ap.len(),
            hi <= n + 1,
            n < lo + bp.len(),
            t == conv_term(vals(ap@), vals(bp@), n as int),
            val(accum) == sum_over(t, lo as int, j as int),
        decreases hi - j,
    {
        let p: Integer = int_mul(&ap[j], &bp[n - j]);
        proof {
            assert(t(j as int) == val(p));
        }
        accum = int_add(&accum, &p);
        j = j + 1;
    }
    accum
}

/// `c = a * b`, computed from the definition: coefficient `n` of the product
/// is the sum of `a_j * b_(n - j)`.
pub fn plain_mul(c: &mut ZZX, a: &ZZX, b: &ZZX)
    requires
        product_fits(a@.len(), b@.len()),
    ensures
        final(c)@ == poly_mul(a@, b@),
        is_normalized(final(c)@),
{
    let ap = a.coeffs_ref();
    let bp = b.coeffs_ref();
    let la: usize = ap.len();
    let lb: usize = bp.len();
    if la == 0 || lb == 0 {
        *c = ZZX::new_with_vec(Vec::new());
        proof {
            assert(vals(Seq::<Integer>::empty()) =~= Seq::new(0, |n: int| conv(a@, b@, n)));
        }
        return ;
    }
    let len: usize = la + (lb - 1);
    let mut v: Vec<Integer> = Vec::new();
    let mut i: usize = 0;
    while i < len
        invariant
            i <= len,
            len == la + lb - 1,
            la == ap.len(),
            lb == bp.len(),
            la > 0,
            lb > 0,
            v.len() == i,
            vals(ap@) == a@,
            vals(bp@) == b@,
            forall|n: int| 0 <= n < i ==> val(#[trigger] v@[n]) == conv(a@, b@, n),
        decreases len - i,
    {
        let j_min: usize = if i >= lb {
            i - (lb - 1)
        } else {
            0
        };
        let j_max: usize = if i < la {
            i
        } else {
            la - 1
        };
        let accum: Integer = window_sum(ap, bp, i, j_min, j_max + 1);
        proof {
            lemma_conv_stored(a@, b@, i as int);
        }
        v.push(accum);
        i = i + 1;
    }
    proof {
        assert(vals(v@) =~= Seq::new(len as nat, |n: int| conv(a@, b@, n)));
    }
    *c = ZZX::new_with_vec(v);
}

/// `c = a * a`, computed from half of the terms of each coefficient: the
/// products of two different coefficients are added up once and doubled, and
/// the square of the middle coefficient, where there is one, is added once.
pub fn plain_sqr(c: &mut ZZX, a: &ZZX)
    requires
        product_fits(a@.len(), a@.len()),
    ensures
        final(c)@ == poly_mul(a@, a@),
        final(c)@ == poly_sqr(a@),
        is_normalized(final(c)@),
{
    proof {
        lemma_sqr_is_mul(a@);
    }
    let ap = a.coeffs_ref();
    let la: usize = ap.len();
    if la == 0 {
        *c = ZZX::new_with_vec(Vec::new());
        proof {
            assert(vals(Seq::<Integer>::empty()) =~= Seq::new(0, |n: int| sqr_coeff(a@, n)));
        }
        return ;
    }
    let len: usize = la + (la - 1);
    let two: Integer = int_from_i64(2);
    let mut v: Vec<Integer> = Vec::new();
    let mut i: usize = 0;
    while i < len
        invariant
            i <= len,
            len == 2 * la - 1,
            la == ap.len(),
            la > 0,
            v.len() == i,
            val(two) == 2,
            vals(ap@) == a@,
            forall|n: int| 0 <= n < i ==> val(#[trigger] v@[n]) == sqr_coeff(a@, n),
        decreases len - i,
    {
        let j_min: usize = if i >= la {
            i - (la - 1)
        } else {
            0
        };
        let j_max: usize = if i < la {
            i
        } else {
            la - 1
        };
        let m: usize = j_max - j_min + 1;
        let m2: usize = m >> 1;
        assert(m2 == m / 2) by (bit_vector)
            requires
                m2 == m >> 1,
        ;
        assert(j_min == window_lo(a@.len(), i as int));
        assert(j_max == window_hi(a@.len(), i as int));
        let half: Integer = window_sum(ap, ap, i, j_min, j_min + m2);
        let mut accum: Integer = int_mul(&half, &two);
        if m & 1 == 1 {
            let mid: Integer = int_mul(&ap[j_min + m2], &ap[j_min + m2]);
            accum = int_add(&accum, &mid);
        }
        proof {
            assert((m & 1 == 1) == (m % 2 == 1)) by (bit_vector);
            assert(val(half) * 2 == 2 * val(half));
        }
        v.push(accum);
        i = i + 1;
    }
    proof {
        assert(vals(v@) =~= Seq::new(len as nat, |n: int| sqr_coeff(a@, n)));
    }
    *c = ZZX::new_with_vec(v);
}

/// `c = a * a`.
fn sqr_into(c: &mut ZZX, a: &ZZX)
    requires
        product_fits(a@.len(), a@.len()),
    ensures
        final(c)@ == poly_mul(a@, a@),
        is_normalized(final(c)@),
{
    proof {
        lemma_sqr_is_mul(a@);
    }
    plain_sqr(c, a);
}

/// The square of `a`.
pub fn sqr(a: &ZZX) -> (c: ZZX)
    requires
        product_fits(a@.len(), a@.len()),
    ensures
        c@ == poly_mul(a@, a@),
        is_normalized(c@),
{
    let mut c = ZZX::new();
    sqr_into(&mut c, a);
    c
}

/// `c = a * b`. Where both factors are the same polynomial the product is
/// computed by squaring.
pub fn mul(c: &mut ZZX, a: &ZZX, b: &ZZX)
    requires
        product_fits(a@.len(), b@.len()),
    ensures
        final(c)@ == poly_mul(a@, b@),
        final(c)@ == poly_mul(b@, a@),
        is_normalized(final(c)@),
        a@.len() > 0 && b@.len() > 0 ==> {
            &&& final(c)@.len() == a@.len() + b@.len() - 1
            &&& lead(final(c)@) == lead(a@) * lead(b@)
            &&& lead(final(c)@) != 0
        },
{
    let _ = a.coeffs_ref();
    let _ = b.coeffs_ref();
    proof {
        lemma_mul_comm(a@, b@);
        if a@.len() > 0 && b@.len() > 0 {
            lemma_mul_degree(a@, b@);
        }
    }
    if a.is_zero() || b.is_zero() {
        *c = ZZX::new();
        proof {
            assert(Seq::<int>::empty() =~= Seq::new(0, |n: int| conv(a@, b@, n)));
        }
        return ;
    }
    if a.equals(b) {
        sqr_into(c, a);
        return ;
    }
    plain_mul(c, a, b);
}

/// `a * b mod X^n`.
pub fn mul_trunc(a: &ZZX, b: &ZZX, n: i64) -> (x: ZZX)
    requires
        n >= 0,
        product_fits(a@.len(), b@.len()),
    ensures
        x@ == poly_trunc(poly_mul(a@, b@), n as int),
        is_normalized(x@),
{
    let mut t = ZZX::new();
    self::mul(&mut t, a, b);
    trunc(&t, n)
}

/// `a * a mod X^n`.
pub fn sqr_trunc(a: &ZZX, n: i64) -> (x: ZZX)
    requires
        n >= 0,
        product_fits(a@.len(), a@.len()),
    ensures
        x@ == poly_trunc(poly_mul(a@, a@), n as int),
        is_normalized(x@),
{
    let t = sqr(a);
    trunc(&t, n)
}

/// `x = a * b` for an integer `b`.
pub fn mul_with_integer(x: &mut ZZX, a: &ZZX, b: &Integer)
    ensures
        final(x)@ == poly_scale(a@, val(*b)),
        is_normalized(final(x)@),
{
    let ap = a.coeffs_ref();
    let mut v: Vec<Integer> = Vec::new();
    if !int_is(b, 0) {
        let mut i: usize = 0;
        while i < ap.len()
            invariant
                i <= ap.len(),
                v.len() == i,
                vals(ap@) == a@,
                forall|j: int| 0 <= j < i ==> val(#[trigger] v@[j]) == a@[j] * val(*b),
            decreases ap.len() - i,
        {
            v.push(int_mul(&ap[i], b));
            i = i + 1;
        }
        proof {
            assert(vals(v@) =~= Seq::new(a@.len(), |i: int| a@[i] * val(*b)));
        }
    } else {
        proof {
            crate::poly::lemma_scale_zero(a@);
        }
    }
    *x = ZZX::new_with_vec(v);
}

} // verus!
