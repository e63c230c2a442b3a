//! Traces modulo a monic polynomial.
//!
//! For a monic polynomial `f` of degree `n`, the trace of `X^k mod f` is the
//! sum of the `k`-th powers of the roots of `f`. Newton's identities give
//! these sums from the coefficients of `f`, one after the other.

use crate::integer::{int_add, int_from_i64, int_from_u64, int_mul, int_neg, val, vals};
use crate::poly::lead;
use crate::zzx::ZZX;
use rug::Integer;
use vstd::prelude::*;

verus! {

/// The sum of `f[n - i] * trace_power(f, k - i)` for `1 <= i <= m`, where `n`
/// is the degree of `f`.
pub open spec fn newton_sum(f: Seq<int>, k: nat, m: nat) -> int
    decreases k, m,
{
    if m == 0 || m >= k {
        0
    } else {
        newton_sum(f, k, (m - 1) as nat) + f[f.len() - 1 - m] * trace_power(f, (k - m) as nat)
    }
}

/// The trace of `X^k mod f` for a monic `f` of degree `n`, by Newton's
/// identities: the trace of `1` is `n`, and for `k >= 1` the trace of `X^k` is
/// minus the sum of `k * f[n - k]` and of `f[n - i]` times the trace of
/// `X^(k - i)` for `1 <= i < k`.
pub open spec fn trace_power(f: Seq<int>, k: nat) -> int
    decreases k, k,
{
    if k == 0 {
        f.len() - 1
    } else {
        -(f[f.len() - 1 - k] * k + newton_sum(f, k, (k - 1) as nat))
    }
}

/// The traces of `X^0, ..., X^(n - 1)` modulo a monic `f` of degree `n`.
pub open spec fn traces(f: Seq<int>) -> Seq<int> {
    Seq::new(
        if f.len() == 0 {
            0
        } else {
            (f.len() - 1) as nat
        },
        |k: int| trace_power(f, k as nat),
    )
}

/// The sum of `a[i] * b[i]` over the first `n` indices.
pub open spec fn dot(a: Seq<int>, b: Seq<int>, n: nat) -> int
    decreases n,
{
    if n == 0 {
        0
    } else {
        dot(a, b, (n - 1) as nat) + a[n - 1] * b[n - 1]
    }
}

/// The shorter of two lengths.
pub open spec fn shorter(m: nat, n: nat) -> nat {
    if m <= n {
        m
    } else {
        n
    }
}

/// The traces of `X^0, ..., X^(n - 1)` modulo the monic polynomial `f` of
/// degree `n`.
pub fn trace_vec(f: &ZZX) -> (s: Vec<Integer>)
    requires
        lead(f@) == 1,
    ensures
        vals(s@) == traces(f@),
{
    let fp = f.coeffs_ref();
    let n: usize = fp.len() - 1;
    let mut s: Vec<Integer> = Vec::new();
    if n == 0 {
        assert(vals(s@) =~= traces(f@));
        return s;
    }
    s.push(int_from_u64(n as u64));
    let mut k: usize = 1;
    while k < n
        invariant
            1 <= k <= n,
            n + 1 == fp.len(),
            vals(fp@) == f@,
            s.len() == k,
            forall|j: int| 0 <= j < k ==> val(#[trigger] s@[j]) == trace_power(f@, j as nat),
        decreases n - k,
    {
        let factor: Integer = int_from_u64(k as u64);
        let mut acc: Integer = int_mul(&fp[n - k], &factor);
        let mut i: usize = 1;
        while i < k
            invariant
                1 <= i <= k,
                k < n,
                n + 1 == fp.len(),
                vals(fp@) == f@,
                s.len() == k,
                forall|j: int| 0 <= j < k ==> val(#[trigger] s@[j]) == trace_power(f@, j as nat),
                val(acc) == f@[n - k] * k + newton_sum(f@, k as nat, (i - 1) as nat),
            decreases k - i,
        {
            let t: Integer = int_mul(&fp[n - i], &s[k - i]);
            acc = int_add(&acc, &t);
            i = i + 1;
        }
        s.push(int_neg(&acc));
        k = k + 1;
    }
    assert(vals(s@) =~= traces(f@));
    s
}

/// The sum of the products `a[i] * b[i]`, as far as both vectors reach.
pub fn inner_product(a: &Vec<Integer>, b: &Vec<Integer>) -> (r: Integer)
    ensures
        val(r) == dot(vals(a@), vals(b@), shorter(a@.len(), b@.len())),
{
    let n: usize = if a.len() <= b.len() {
        a.len()
    } else {
        b.len()
    };
    let mut acc: Integer = int_from_i64(0);
    let mut i: usize = 0;
    while i < n
        invariant
            i <= n,
            n <= a.len(),
            n <= b.len(),
            val(acc) == dot(vals(a@), vals(b@), i as nat),
        decreases n - i,
    {
        let t: Integer = int_mul(&a[i], &b[i]);
        acc = int_add(&acc, &t);
        i = i + 1;
    }
    acc
}

/// The trace of `a` modulo the monic polynomial `f`, for `a` of a degree
/// below that of `f`: the sum of the coefficients of `a`, each times the
/// trace of its power of `X`.
pub fn trace_mod(a: &ZZX, f: &ZZX) -> (r: Integer)
    requires
        lead(f@) == 1,
        f@.len() >= 2,
        a@.len() < f@.len(),
    ensures
        val(r) == dot(traces(f@), a@, a@.len()),
{
    let s: Vec<Integer> = trace_vec(f);
    let ap = a.coeffs_ref();
    let r: Integer = inner_product(&s, ap);
    proof {
        assert(vals(s@).len() == f@.len() - 1);
        assert(shorter(s@.len(), ap@.len()) == a@.len());
    }
    r
}

} // verus!
