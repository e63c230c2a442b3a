//! Addition, subtraction, negation, shifts, truncation, the derivative and
//! the reversal of polynomials.

use crate::integer::{int_add, int_from_i64, int_from_u64, int_mul, int_neg, int_sub, val, vals};
use crate::poly::{
    coeff, is_normalized, longer, poly_add, poly_diff, poly_left_shift, poly_neg, poly_reverse,
    poly_right_shift, poly_sub, poly_trunc,
};
use crate::zzx::{fits, ZZX};
use rug::Integer;
use vstd::prelude::*;

verus! {

/// `x = a + b`.
pub fn add(x: &mut ZZX, a: &ZZX, b: &ZZX)
    ensures
        final(x)@ == poly_add(a@, b@),
        is_normalized(final(x)@),
{
    let ap = a.coeffs_ref();
    let bp = b.coeffs_ref();
    let n: usize = if ap.len() >= bp.len() {
        ap.len()
    } else {
        bp.len()
    };
    let mut v: Vec<Integer> = Vec::new();
    let mut i: usize = 0;
    while i < n
        invariant
            i <= n,
            v.len() == i,
            n == longer(ap.len() as nat, bp.len() as nat),
            vals(ap@) == a@,
            vals(bp@) == b@,
            forall|j: int| 0 <= j < i ==> val(#[trigger] v@[j]) == coeff(a@, j) + coeff(b@, j),
        decreases n - i,
    {
        let c: Integer = if i < ap.len() {
            if i < bp.len() {
                int_add(&ap[i], &bp[i])
            } else {
                ap[i].clone()
            }
        } else {
            bp[i].clone()
        };
        v.push(c);
        i = i + 1;
    }
    proof {
        assert(vals(v@) =~= Seq::new(
            longer(a@.len(), b@.len()),
            |i: int| coeff(a@, i) + coeff(b@, i),
        ));
    }
    *x = ZZX::new_with_vec(v);
}

/// `x = a - b`.
pub fn sub(x: &mut ZZX, a: &ZZX, b: &ZZX)
    ensures
        final(x)@ == poly_sub(a@, b@),
        is_normalized(final(x)@),
{
    let ap = a.coeffs_ref();
    let bp = b.coeffs_ref();
    let n: usize = if ap.len() >= bp.len() {
        ap.len()
    } else {
        bp.len()
    };
    let mut v: Vec<Integer> = Vec::new();
    let mut i: usize = 0;
    while i < n
        invariant
            i <= n,
            v.len() == i,
            n == longer(ap.len() as nat, bp.len() as nat),
            vals(ap@) == a@,
            vals(bp@) == b@,
            forall|j: int| 0 <= j < i ==> val(#[trigger] v@[j]) == coeff(a@, j) - coeff(b@, j),
        decreases n - i,
    {
        let c: Integer = if i < ap.len() {
            if i < bp.len() {
                int_sub(&ap[i], &bp[i])
            } else {
                ap[i].clone()
            }
        } else {
            int_neg(&bp[i])
        };
        v.push(c);
        i = i + 1;
    }
    proof {
        assert(vals(v@) =~= Seq::new(
            longer(a@.len(), b@.len()),
            |i: int| coeff(a@, i) - coeff(b@, i),
        ));
    }
    *x = ZZX::new_with_vec(v);
}

/// `q = -a`.
pub fn negate(q: &mut ZZX, a: &ZZX)
    ensures
        final(q)@ == poly_neg(a@),
        is_normalized(final(q)@),
{
    let ap = a.coeffs_ref();
    let mut v: Vec<Integer> = Vec::new();
    let mut i: usize = 0;
    while i < ap.len()
        invariant
            i <= ap.len(),
            v.len() == i,
            vals(ap@) == a@,
            forall|j: int| 0 <= j < i ==> val(#[trigger] v@[j]) == -a@[j],
        decreases ap.len() - i,
    {
        v.push(int_neg(&ap[i]));
        i = i + 1;
    }
    proof {
        assert(vals(v@) =~= poly_neg(a@));
        assert(is_normalized(poly_neg(a@)));
    }
    *q = ZZX::new_with_vec(v);
}

/// `a mod X^m`: the coefficients of `a` below index `m`.
pub fn trunc(a: &ZZX, m: i64) -> (x: ZZX)
    requires
        m >= 0,
    ensures
        x@ == poly_trunc(a@, m as int),
        is_normalized(x@),
{
    let ap = a.coeffs_ref();
    let n: usize = if m as u64 <= ap.len() as u64 {
        m as usize
    } else {
        ap.len()
    };
    let mut v: Vec<Integer> = Vec::new();
    let mut i: usize = 0;
    while i < n
        invariant
            i <= n <= ap.len(),
            v.len() == i,
            vals(ap@) == a@,
            forall|j: int| 0 <= j < i ==> val(#[trigger] v@[j]) == a@[j],
        decreases n - i,
    {
        v.push(ap[i].clone());
        i = i + 1;
    }
    proof {
        assert(vals(v@) =~= Seq::new(n as nat, |i: int| a@[i]));
    }
    ZZX::new_with_vec(v)
}

/// The magnitude of a shift amount.
fn magnitude(n: i64) -> (r: u64)
    ensures
        r == (if n >= 0 {
            n as int
        } else {
            -(n as int)
        }),
{
    if n >= 0 {
        n as u64
    } else if n == i64::MIN {
        0x8000_0000_0000_0000u64
    } else {
        (-n) as u64
    }
}

/// `a * X^k`.
fn shift_up(a: &ZZX, k: u64) -> (x: ZZX)
    requires
        a@.len() > 0 ==> fits(a@.len() + k),
    ensures
        x@ == poly_left_shift(a@, k as int),
        is_normalized(x@),
{
    let ap = a.coeffs_ref();
    if ap.len() == 0 {
        return ZZX::new();
    }
    let k: usize = k as usize;
    let mut v: Vec<Integer> = Vec::new();
    let mut i: usize = 0;
    while i < k
        invariant
            i <= k,
            v.len() == i,
            forall|j: int| 0 <= j < i ==> val(#[trigger] v@[j]) == 0,
        decreases k - i,
    {
        v.push(int_from_i64(0));
        i = i + 1;
    }
    let mut i: usize = 0;
    while i < ap.len()
        invariant
            i <= ap.len(),
            ap.len() + k <= usize::MAX,
            v.len() == k + i,
            vals(ap@) == a@,
            forall|j: int| 0 <= j < k + i ==> val(#[trigger] v@[j]) == coeff(a@, j - k),
        decreases ap.len() - i,
    {
        v.push(ap[i].clone());
        i = i + 1;
    }
    proof {
        assert(vals(v@) =~= poly_left_shift(a@, k as int));
        assert(is_normalized(vals(v@)));
    }
    ZZX::new_with_vec(v)
}

/// `a div X^k`.
fn shift_down(a: &ZZX, k: u64) -> (x: ZZX)
    ensures
        x@ == poly_left_shift(a@, -(k as int)),
        is_normalized(x@),
{
    let ap = a.coeffs_ref();
    if k >= ap.len() as u64 {
        return ZZX::new();
    }
    let k: usize = k as usize;
    let n: usize = ap.len() - k;
    let mut v: Vec<Integer> = Vec::new();
    let mut i: usize = 0;
    while i < n
        invariant
            i <= n,
            n + k == ap.len(),
            v.len() == i,
            vals(ap@) == a@,
            forall|j: int| 0 <= j < i ==> val(#[trigger] v@[j]) == coeff(a@, j + k),
        decreases n - i,
    {
        v.push(ap[i + k].clone());
        i = i + 1;
    }
    proof {
        assert(vals(v@) =~= poly_left_shift(a@, -(k as int)));
        assert(is_normalized(vals(v@)));
    }
    ZZX::new_with_vec(v)
}

/// `a div X^n`. A negative `n` shifts the other way, by `-n`.
pub fn right_shift(a: &ZZX, n: i64) -> (x: ZZX)
    requires
        n < 0 && a@.len() > 0 ==> fits(a@.len() - n),
    ensures
        x@ == poly_right_shift(a@, n as int),
        is_normalized(x@),
{
    let ap = a.coeffs_ref();
    if n < 0 {
        shift_up(a, magnitude(n))
    } else {
        shift_down(a, magnitude(n))
    }
}

/// `a * X^n`. A negative `n` shifts the other way, by `-n`.
pub fn left_shift(a: &ZZX, n: i64) -> (x: ZZX)
    requires
        n > 0 && a@.len() > 0 ==> fits(a@.len() + n),
    ensures
        x@ == poly_left_shift(a@, n as int),
        is_normalized(x@),
{
    let ap = a.coeffs_ref();
    if n < 0 {
        shift_down(a, magnitude(n))
    } else {
        shift_up(a, magnitude(n))
    }
}

/// The derivative of `a`.
pub fn diff(a: &ZZX) -> (x: ZZX)
    ensures
        x@ == poly_diff(a@),
        is_normalized(x@),
{
    let ap = a.coeffs_ref();
    if ap.len() <= 1 {
        proof {
            assert(poly_diff(a@) =~= Seq::<int>::empty());
        }
        return ZZX::new();
    }
    let n: usize = ap.len() - 1;
    let mut v: Vec<Integer> = Vec::new();
    let mut i: usize = 0;
    while i < n
        invariant
            i <= n,
            n + 1 == ap.len(),
            v.len() == i,
            vals(ap@) == a@,
            forall|j: int| 0 <= j < i ==> val(#[trigger] v@[j]) == (j + 1) * coeff(a@, j + 1),
        decreases n - i,
    {
        let factor: Integer = int_from_u64((i + 1) as u64);
        let c: Integer = int_mul(&ap[i + 1], &factor);
        proof {
            assert(val(c) == (i + 1) * coeff(a@, i + 1)) by (nonlinear_arith)
                requires
                    val(c) == coeff(a@, i + 1) * (i + 1),
            ;
        }
        v.push(c);
        i = i + 1;
    }
    proof {
        assert(vals(v@) =~= Seq::new(n as nat, |i: int| (i + 1) * coeff(a@, i + 1)));
    }
    ZZX::new_with_vec(v)
}

/// The coefficients `0..=hi` of `a` in reverse order. Zero for a negative
/// `hi`.
pub fn reverse(a: &ZZX, hi: i64) -> (x: ZZX)
    requires
        fits(hi + 1),
    ensures
        x@ == poly_reverse(a@, hi as int),
        is_normalized(x@),
{
    if hi < 0 {
        proof {
            assert(poly_reverse(a@, hi as int) =~= Seq::<int>::empty());
        }
        return ZZX::new();
    }
    let ap = a.coeffs_ref();
    let hi: usize = hi as usize;
    let n: usize = hi + 1;
    let mut v: Vec<Integer> = Vec::new();
    let mut i: usize = 0;
    while i < n
        invariant
            i <= n,
            n == hi + 1,
            v.len() == i,
            vals(ap@) == a@,
            forall|j: int| 0 <= j < i ==> val(#[trigger] v@[j]) == coeff(a@, hi - j),
        decreases n - i,
    {
        let j: usize = hi - i;
        let c: Integer = if j >= ap.len() {
            int_from_i64(0)
        } else {
            ap[j].clone()
        };
        v.push(c);
        i = i + 1;
    }
    proof {
        assert(vals(v@) =~= Seq::new(n as nat, |i: int| coeff(a@, hi - i)));
    }
    ZZX::new_with_vec(v)
}

} // verus!
