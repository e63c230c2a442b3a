//! The polynomial type: a dense sequence of big-integer coefficients, always
//! held in normal form.

use crate::integer::{
    int_bit_count, int_bits, int_eq, int_from_i64, int_is, lemma_vals_push, val, vals,
};
use crate::numbers::{lemma_max_bit_length, max_bit_length};
use crate::poly::{coeff, degree, is_normalized, lead, lemma_normalized, normalized};
use rug::Integer;
use std::ops::Index;
use vstd::prelude::*;

verus! {

/// A polynomial with integer coefficients. Index `i` holds the coefficient of
/// `X^i`; the last coefficient held is never zero, and the zero polynomial
/// holds none.
#[derive(Debug)]
pub struct ZZX {
    coeffs: Vec<Integer>,
}

impl View for ZZX {
    type V = Seq<int>;

    closed spec fn view(&self) -> Seq<int> {
        vals(self.coeffs@)
    }
}

/// Whether a number of coefficients can be held: it has to fit both the index
/// type and the signed type in which degrees are reported.
pub open spec fn fits(n: int) -> bool {
    n <= usize::MAX && n <= i64::MAX
}

/// The coefficients of `s`, grown with zeros to reach index `i` where they do
/// not, with `v` at index `i`.
pub open spec fn raised(s: Seq<int>, i: int, v: int) -> Seq<int> {
    Seq::new(
        if s.len() > i + 1 {
            s.len()
        } else {
            (i + 1) as nat
        },
        |j: int|
            if j == i {
                v
            } else {
                coeff(s, j)
            },
    )
}

/// The polynomial `s` with coefficient `i` replaced by `v`, in normal form.
pub open spec fn with_coeff(s: Seq<int>, i: int, v: int) -> Seq<int> {
    normalized(raised(s, i, v))
}

/// The coefficients after one coefficient has been replaced.
pub proof fn lemma_with_coeff(s: Seq<int>, i: int, v: int, j: int)
    requires
        i >= 0,
    ensures
        coeff(with_coeff(s, i, v), j) == (if j == i {
            v
        } else {
            coeff(s, j)
        }),
        is_normalized(with_coeff(s, i, v)),
        with_coeff(s, i, v).len() <= s.len() || with_coeff(s, i, v).len() <= i + 1,
{
    lemma_normalized(raised(s, i, v));
    assert(coeff(normalized(raised(s, i, v)), j) == coeff(raised(s, i, v), j));
}

/// Removes the zeros at the end of a coefficient vector.
pub(crate) fn strip(v: &mut Vec<Integer>)
    ensures
        vals(final(v)@) == normalized(vals(old(v)@)),
        is_normalized(vals(final(v)@)),
        final(v).len() <= old(v).len(),
{
    let mut n: usize = v.len();
    while n > 0 && int_is(&v[n - 1], 0)
        invariant
            n == v.len(),
            n <= old(v).len(),
            normalized(vals(v@)) == normalized(vals(old(v)@)),
        decreases n,
    {
        proof {
            assert(vals(v@).drop_last() =~= vals(v@.drop_last()));
        }
        v.pop();
        n = n - 1;
    }
}

/// Copies a coefficient vector.
pub(crate) fn clone_coeffs(v: &Vec<Integer>) -> (r: Vec<Integer>)
    ensures
        vals(r@) == vals(v@),
        r.len() == v.len(),
{
    let mut r: Vec<Integer> = Vec::new();
    let mut i: usize = 0;
    while i < v.len()
        invariant
            i <= v.len(),
            r.len() == i,
            vals(r@) == vals(v@.take(i as int)),
        decreases v.len() - i,
    {
        proof {
            lemma_vals_push(r@, v@[i as int]);
            assert(v@.take(i as int + 1) =~= v@.take(i as int).push(v@[i as int]));
        }
        let c = v[i].clone();
        proof {
            lemma_vals_push(r@, c);
        }
        r.push(c);
        i = i + 1;
    }
    proof {
        assert(v@.take(v.len() as int) =~= v@);
        assert(vals(r@) =~= vals(v@));
    }
    r
}

impl ZZX {
    #[verifier::type_invariant]
    spec fn inv(&self) -> bool {
        is_normalized(vals(self.coeffs@)) && self.coeffs.len() <= i64::MAX
    }

    /// The zero polynomial.
    pub fn new() -> (r: Self)
        ensures
            r@ == Seq::<int>::empty(),
    {
        let coeffs: Vec<Integer> = Vec::new();
        assert(vals(coeffs@) =~= Seq::<int>::empty());
        ZZX { coeffs }
    }

    /// The constant polynomial `n`.
    pub fn new_with_val(n: Integer) -> (r: Self)
        ensures
            r@ == (if val(n) == 0 {
                Seq::<int>::empty()
            } else {
                seq![val(n)]
            }),
    {
        if int_is(&n, 0) {
            ZZX::new()
        } else {
            let mut coeffs: Vec<Integer> = Vec::new();
            coeffs.push(n);
            assert(vals(coeffs@) =~= seq![val(n)]);
            ZZX { coeffs }
        }
    }

    /// The polynomial whose coefficients are the given ones, lowest first.
    /// Zeros at the end are dropped.
    pub fn new_with_vec(coeffs: Vec<Integer>) -> (r: Self)
        requires
            fits(coeffs.len() as int),
        ensures
            r@ == normalized(vals(coeffs@)),
            is_normalized(r@),
    {
        let mut v = coeffs;
        strip(&mut v);
        ZZX { coeffs: v }
    }

    /// The zero polynomial, with room set aside for `n` coefficients.
    pub fn new_with_size(n: usize) -> (r: Self)
        ensures
            r@ == Seq::<int>::empty(),
    {
        let coeffs: Vec<Integer> = Vec::with_capacity(n);
        assert(vals(coeffs@) =~= Seq::<int>::empty());
        ZZX { coeffs }
    }

    /// The coefficients held, lowest first.
    pub(crate) fn coeffs_ref(&self) -> (r: &Vec<Integer>)
        ensures
            vals(r@) == self@,
            is_normalized(self@),
            fits(r.len() as int),
    {
        proof {
            use_type_invariant(self);
        }
        &self.coeffs
    }

    /// Brings the polynomial to normal form. Every operation leaves it there,
    /// so the value does not change.
    pub fn normalize(&mut self)
        ensures
            final(self)@ == old(self)@,
            is_normalized(final(self)@),
    {
        proof {
            use_type_invariant(&*self);
        }
    }

    /// Keeps the coefficients below index `len` and drops the others. A `len`
    /// beyond the coefficients held changes nothing: the coefficients above
    /// the degree are zero without being stored.
    pub fn set_length(&mut self, len: usize)
        ensures
            final(self)@ == normalized(
                old(self)@.take(
                    if len <= old(self)@.len() {
                        len as int
                    } else {
                        old(self)@.len() as int
                    },
                ),
            ),
            is_normalized(final(self)@),
    {
        proof {
            use_type_invariant(&*self);
        }
        if len < self.coeffs.len() {
            let mut v: Vec<Integer> = Vec::new();
            std::mem::swap(&mut v, &mut self.coeffs);
            v.truncate(len);
            proof {
                assert(vals(v@) =~= old(self)@.take(len as int));
            }
            strip(&mut v);
            self.coeffs = v;
        } else {
            proof {
                assert(old(self)@.take(old(self)@.len() as int) =~= old(self)@);
            }
        }
    }

    /// Sets room aside for `len` coefficients. The value does not change.
    pub fn set_max_length(&mut self, len: usize)
        ensures
            final(self)@ == old(self)@,
    {
        proof {
            use_type_invariant(&*self);
        }
        if self.coeffs.len() < len {
            let extra: usize = len - self.coeffs.len();
            let mut v: Vec<Integer> = Vec::new();
            std::mem::swap(&mut v, &mut self.coeffs);
            v.reserve(extra);
            self.coeffs = v;
        }
    }

    /// The degree: one less than the number of coefficients held, so `-1` for
    /// the zero polynomial.
    pub fn deg(&self) -> (r: i64)
        ensures
            r == degree(self@),
            r >= -1,
            is_normalized(self@),
    {
        proof {
            use_type_invariant(self);
        }
        self.coeffs.len() as i64 - 1
    }

    /// Coefficient `i`; zero beyond the degree.
    pub fn coeff(&self, i: usize) -> (r: Integer)
        ensures
            val(r) == coeff(self@, i as int),
    {
        if i >= self.coeffs.len() {
            int_from_i64(0)
        } else {
            self.coeffs[i].clone()
        }
    }

    /// Coefficient `i`; zero beyond the degree.
    pub fn get_coeff(&self, i: usize) -> (r: Integer)
        ensures
            val(r) == coeff(self@, i as int),
    {
        self.coeff(i)
    }

    /// The leading coefficient; zero for the zero polynomial.
    pub fn lead_coeff(&self) -> (r: Integer)
        ensures
            val(r) == lead(self@),
    {
        let n: usize = self.coeffs.len();
        if n == 0 {
            int_from_i64(0)
        } else {
            self.coeffs[n - 1].clone()
        }
    }

    /// The constant term; zero for the zero polynomial.
    pub fn const_term(&self) -> (r: Integer)
        ensures
            val(r) == coeff(self@, 0),
    {
        self.coeff(0)
    }

    /// Sets coefficient `i` to `n`, or to one where `n` is absent. The
    /// polynomial grows where `i` lies beyond its degree and shrinks where the
    /// new coefficient leaves zeros at its end.
    pub fn set_coeff(&mut self, i: usize, n: Option<Integer>)
        requires
            fits(i + 1),
        ensures
            final(self)@ == with_coeff(
                old(self)@,
                i as int,
                match n {
                    Some(x) => val(x),
                    None => 1,
                },
            ),
            is_normalized(final(self)@),
    {
        proof {
            use_type_invariant(&*self);
        }
        let x: Integer = match n {
            Some(x) => x,
            None => int_from_i64(1),
        };
        let mut v: Vec<Integer> = Vec::new();
        std::mem::swap(&mut v, &mut self.coeffs);
        while v.len() <= i
            invariant
                i + 1 <= usize::MAX,
                old(self)@.len() <= v.len(),
                v.len() <= old(self)@.len() || v.len() <= i + 1,
                forall|j: int| 0 <= j < v.len() ==> val(#[trigger] v@[j]) == coeff(old(self)@, j),
            decreases i + 1 - v.len(),
        {
            v.push(int_from_i64(0));
        }
        let ghost xv = val(x);
        v[i] = x;
        proof {
            assert(vals(v@) =~= raised(old(self)@, i as int, xv));
        }
        strip(&mut v);
        self.coeffs = v;
    }

    /// The monomial `X`.
    pub fn set_x() -> (r: Self)
        ensures
            r@ == seq![0int, 1int],
    {
        let mut coeffs: Vec<Integer> = Vec::new();
        coeffs.push(int_from_i64(0));
        coeffs.push(int_from_i64(1));
        assert(vals(coeffs@) =~= seq![0int, 1int]);
        ZZX { coeffs }
    }

    /// Whether the polynomial is the monomial `X`.
    pub fn is_x(&self) -> (r: bool)
        ensures
            r == (self@ == seq![0int, 1int]),
    {
        let r = self.coeffs.len() == 2 && int_is(&self.coeffs[0], 0) && int_is(&self.coeffs[1], 1);
        proof {
            if r {
                assert(self@ =~= seq![0int, 1int]);
            } else if self.coeffs.len() == 2 {
                assert(seq![0int, 1int][0] == 0 && seq![0int, 1int][1] == 1);
            } else {
                assert(seq![0int, 1int].len() == 2);
            }
        }
        r
    }

    /// Makes the polynomial zero.
    pub fn clear(&mut self)
        ensures
            final(self)@ == Seq::<int>::empty(),
    {
        let v: Vec<Integer> = Vec::new();
        assert(vals(v@) =~= Seq::<int>::empty());
        self.coeffs = v;
    }

    /// Makes the polynomial the constant one.
    pub fn set(&mut self)
        ensures
            final(self)@ == seq![1int],
    {
        let mut v: Vec<Integer> = Vec::new();
        v.push(int_from_i64(1));
        assert(vals(v@) =~= seq![1int]);
        self.coeffs = v;
    }

    /// The width, in bits, of the machine word by which coefficient sizes are
    /// measured.
    pub fn max_size(&self) -> (r: u32)
        ensures
            r == 64,
    {
        64
    }

    /// The largest number of binary digits among the coefficients, which has
    /// to fit a `u32`: see [`ZZX::checked_max_bits`].
    pub fn max_bits(&self) -> (r: u32)
        requires
            max_bit_length(self@) <= u32::MAX,
        ensures
            r == max_bit_length(self@),
    {
        let mut m: u32 = 0;
        let mut i: usize = 0;
        while i < self.coeffs.len()
            invariant
                i <= self.coeffs.len(),
                max_bit_length(self@) <= u32::MAX,
                m == max_bit_length(self@.take(i as int)),
            decreases self.coeffs.len() - i,
        {
            proof {
                lemma_max_bit_length(self@, i as int);
            }
            let b: u32 = int_bits(&self.coeffs[i]);
            proof {
                assert(self@.take(i as int + 1).drop_last() =~= self@.take(i as int));
                assert(self@.take(i as int + 1).last() == val(self.coeffs@[i as int]));
            }
            if b > m {
                m = b;
            }
            i = i + 1;
        }
        proof {
            assert(self@.take(self.coeffs.len() as int) =~= self@);
        }
        m
    }

    /// The largest number of binary digits among the coefficients, or `None`
    /// where that number does not fit a `u32`.
    pub fn checked_max_bits(&self) -> (r: Option<u32>)
        ensures
            r.is_some() == (max_bit_length(self@) <= u32::MAX),
            r.is_some() ==> r.unwrap() == max_bit_length(self@),
    {
        let mut m: usize = 0;
        let mut i: usize = 0;
        while i < self.coeffs.len()
            invariant
                i <= self.coeffs.len(),
                m == max_bit_length(self@.take(i as int)),
            decreases self.coeffs.len() - i,
        {
            let b: usize = int_bit_count(&self.coeffs[i]);
            proof {
                assert(self@.take(i as int + 1).drop_last() =~= self@.take(i as int));
                assert(self@.take(i as int + 1).last() == val(self.coeffs@[i as int]));
            }
            if b > m {
                m = b;
            }
            i = i + 1;
        }
        proof {
            assert(self@.take(self.coeffs.len() as int) =~= self@);
        }
        if m <= 0xffff_ffff {
            Some(self.max_bits())
        } else {
            None
        }
    }

    /// Whether the polynomial is zero.
    pub fn is_zero(&self) -> (r: bool)
        ensures
            r == (self@.len() == 0),
    {
        self.coeffs.len() == 0
    }

    /// Whether the polynomial is the constant one.
    pub fn is_one(&self) -> (r: bool)
        ensures
            r == (self@ == seq![1int]),
    {
        let r = self.coeffs.len() == 1 && int_is(&self.coeffs[0], 1);
        proof {
            if r {
                assert(self@ =~= seq![1int]);
            } else if self.coeffs.len() == 1 {
                assert(seq![1int][0] == 1);
            } else {
                assert(seq![1int].len() == 1);
            }
        }
        r
    }

    /// Whether two polynomials are the same.
    pub fn equals(&self, other: &ZZX) -> (r: bool)
        ensures
            r == (self@ == other@),
    {
        if self.coeffs.len() != other.coeffs.len() {
            assert(self@.len() != other@.len());
            return false;
        }
        let mut i: usize = 0;
        while i < self.coeffs.len()
            invariant
                i <= self.coeffs.len(),
                self.coeffs.len() == other.coeffs.len(),
                forall|j: int| 0 <= j < i ==> self@[j] == other@[j],
            decreases self.coeffs.len() - i,
        {
            if !int_eq(&self.coeffs[i], &other.coeffs[i]) {
                assert(self@[i as int] != other@[i as int]);
                return false;
            }
            i = i + 1;
        }
        assert(self@ =~= other@);
        true
    }
}

impl PartialEq for ZZX {
    fn eq(&self, other: &ZZX) -> (r: bool) {
        self.equals(other)
    }
}

impl vstd::std_specs::cmp::PartialEqSpecImpl for ZZX {
    open spec fn obeys_eq_spec() -> bool {
        true
    }

    open spec fn eq_spec(&self, other: &ZZX) -> bool {
        self@ == other@
    }
}

impl vstd::std_specs::core::IndexSpecImpl<usize> for ZZX {
    open spec fn index_req(&self, index: &usize) -> bool {
        *index < self@.len()
    }
}

/// Coefficient `index`, which has to be one of those held.
impl Index<usize> for ZZX {
    type Output = Integer;

    fn index(&self, index: usize) -> (r: &Integer)
        ensures
            val(*r) == self@[index as int],
    {
        &self.coeffs[index]
    }
}

impl Default for ZZX {
    fn default() -> (r: Self)
        ensures
            r@ == Seq::<int>::empty(),
    {
        ZZX::new()
    }
}

impl Clone for ZZX {
    fn clone(&self) -> (r: Self)
        ensures
            r@ == self@,
    {
        proof {
            use_type_invariant(self);
        }
        ZZX { coeffs: clone_coeffs(&self.coeffs) }
    }
}

} // verus!
