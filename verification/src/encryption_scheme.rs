//! The encryption scheme over the ring of integer polynomials modulo
//! `X^p + 1` and `q`: key generation, the encoding of messages, encryption
//! and decryption.
//!
//! Every operation that draws noise has a companion that takes the noise as
//! an argument and says exactly what it returns.

use crate::division::is_division;
use crate::error::ArithError;
use crate::integer::{int_add, int_div_rem, int_from_i64, int_lt, val, vals};
use crate::modular::{is_reduction, mulmod, valid_modulus};
use crate::poly::{
    coeff, is_normalized, lemma_normal_form_unique, lemma_normalized, longer, normalized, poly_add,
    poly_mul, poly_sub,
};
use crate::sampling::Sampling;
use crate::zzx::{lemma_with_coeff, ZZX};
use rug::Integer;
use vstd::arithmetic::div_mod::lemma_fundamental_div_mod_converse_mod;
use vstd::prelude::*;

verus! {

/// How many samples in a row may be thrown away before a draw gives up.
pub const MAX_DRAWS: u32 = 0x1_0000;

/// The defining polynomial of the ring: `X^p + 1`.
pub open spec fn ring_modulus(p: int) -> Seq<int> {
    Seq::new(
        (p + 1) as nat,
        |i: int|
            if i == 0 || i == p {
                1int
            } else {
                0int
            },
    )
}

/// The polynomial `x` with each of its coefficients `0..p` replaced by its
/// representative in `0..q`.
pub open spec fn reduce_coeffs(x: Seq<int>, q: int, p: int) -> Seq<int> {
    normalized(
        Seq::new(
            longer(x.len(), p as nat),
            |i: int|
                if i < p {
                    coeff(x, i) % q
                } else {
                    coeff(x, i)
                },
        ),
    )
}

/// The ring element that stands for a message: coefficient `i` is bit `i`
/// times `(q - 1) / 2`.
pub open spec fn encoded(bits: Seq<i32>, q: int, p: int) -> Seq<int> {
    normalized(Seq::new(p as nat, |i: int| bits[i] * ((q - 1) / 2)))
}

/// The bit that a coefficient decodes to: one where the coefficient lies from
/// `(q - 1) / 4` up to, but not at, three times that.
pub open spec fn decoded_bit(c: int, q: int) -> i32 {
    if (q - 1) / 4 <= c < 3 * ((q - 1) / 4) {
        1
    } else {
        0
    }
}

/// Without noise a bit comes back: for a modulus of nine or more, the
/// coefficient that encodes a bit decodes to that bit.
pub proof fn lemma_decode_encode(bit: int, q: int)
    requires
        q >= 9,
        bit == 0 || bit == 1,
    ensures
        decoded_bit(bit * ((q - 1) / 2), q) == bit,
{
    let half = (q - 1) / 2;
    let quarter = (q - 1) / 4;
    assert(quarter >= 2);
    assert(quarter <= half);
    assert(half <= 2 * quarter + 1);
    assert(bit * half == (if bit == 1 {
        half
    } else {
        0
    })) by (nonlinear_arith)
        requires
            bit == 0 || bit == 1,
    ;
}

/// Every coefficient `0..p` of `a` lies strictly between `lo` and `hi`, and
/// `a` has no other coefficients.
pub open spec fn is_noise(a: Seq<int>, p: int, lo: int, hi: int) -> bool {
    &&& is_normalized(a)
    &&& a.len() <= p
    &&& forall|i: int| 0 <= i < p ==> lo < #[trigger] coeff(a, i) < hi
}

/// Where the gathering of noise stands: the samples kept so far, how many
/// samples have been thrown away in a row, and whether the gathering has
/// given up.
pub struct Gathering {
    pub kept: Seq<int>,
    pub run: nat,
    pub failed: bool,
}

/// The gathering of `p` samples strictly between `lo` and `hi` takes one more
/// sample. A sample between the bounds is kept. Another one is thrown away,
/// and the gathering gives up where `MAX_DRAWS` samples in a row have been
/// thrown away. Once `p` samples are kept, or the gathering has given up,
/// nothing changes any more.
pub open spec fn gather_step(g: Gathering, sample: int, p: int, lo: int, hi: int) -> Gathering {
    if g.failed || g.kept.len() >= p {
        g
    } else if lo < sample < hi {
        Gathering { kept: g.kept.push(sample), run: 0, failed: false }
    } else {
        Gathering { kept: g.kept, run: g.run + 1, failed: g.run + 1 >= MAX_DRAWS }
    }
}

/// The gathering after the first `n` of the samples, in order.
pub open spec fn gather(samples: Seq<i64>, n: int, p: int, lo: int, hi: int) -> Gathering
    decreases n,
{
    if n <= 0 {
        Gathering { kept: Seq::empty(), run: 0, failed: false }
    } else {
        gather_step(gather(samples, n - 1, p, lo, hi), samples[n - 1] as int, p, lo, hi)
    }
}

/// The gathering after all of the samples.
pub open spec fn gathered(samples: Seq<i64>, p: int, lo: int, hi: int) -> Gathering {
    gather(samples, samples.len() as int, p, lo, hi)
}

/// The gathering after the first `n` samples depends on those samples only.
pub proof fn lemma_gather_prefix(s1: Seq<i64>, s2: Seq<i64>, n: int, p: int, lo: int, hi: int)
    requires
        n <= s1.len(),
        n <= s2.len(),
        forall|i: int| 0 <= i < n ==> s1[i] == s2[i],
    ensures
        gather(s1, n, p, lo, hi) == gather(s2, n, p, lo, hi),
    decreases n,
{
    if n > 0 {
        lemma_gather_prefix(s1, s2, n - 1, p, lo, hi);
    }
}

/// A gathering that is complete or has given up takes no notice of further
/// samples.
pub proof fn lemma_gather_done(samples: Seq<i64>, i: int, n: int, p: int, lo: int, hi: int)
    requires
        0 <= i <= n,
        gather(samples, i, p, lo, hi).failed || gather(samples, i, p, lo, hi).kept.len() >= p,
    ensures
        gather(samples, n, p, lo, hi) == gather(samples, i, p, lo, hi),
    decreases n - i,
{
    if n > i {
        lemma_gather_done(samples, i, n - 1, p, lo, hi);
    }
}

/// The representative of `i` modulo `n` in `0..n`.
pub fn coefficient_mod(i: &Integer, n: &Integer) -> (r: Integer)
    requires
        val(*n) > 0,
    ensures
        val(r) == val(*i) % val(*n),
{
    let (q1, r1) = int_div_rem(i, n);
    let shifted: Integer = int_add(&r1, n);
    let (q2, r2) = int_div_rem(&shifted, n);
    proof {
        let nv = val(*n);
        assert(val(*i) == (val(q1) + val(q2) - 1) * nv + val(r2)) by (nonlinear_arith)
            requires
                val(*i) == val(q1) * nv + val(r1),
                val(r1) + nv == val(q2) * nv + val(r2),
        ;
        lemma_fundamental_div_mod_converse_mod(val(*i), nv, val(q1) + val(q2) - 1, val(r2));
    }
    r2
}

/// The parameters of the scheme: the ring `Z[X] / (X^p + 1, q)` and the
/// sampler for the noise.
#[derive(Debug)]
pub struct EncryptionScheme {
    p: i32,
    q: i32,
    f: ZZX,
    gauss: Sampling,
}

impl EncryptionScheme {
    #[verifier::type_invariant]
    spec fn inv(&self) -> bool {
        &&& self.p >= 1
        &&& self.q >= 1
        &&& self.f@ == ring_modulus(self.p as int)
    }

    /// The number of coefficients of a ring element.
    pub closed spec fn p_of(&self) -> int {
        self.p as int
    }

    /// The coefficient modulus.
    pub closed spec fn q_of(&self) -> int {
        self.q as int
    }

    /// The sampler for the noise.
    pub closed spec fn sampler(&self) -> Sampling {
        self.gauss
    }

    /// The bounds strictly between which every coefficient of a noise
    /// polynomial lies.
    pub open spec fn noise_lo(&self) -> int {
        self.sampler().center_of() - self.sampler().bound_of()
    }

    /// See [`EncryptionScheme::noise_lo`].
    pub open spec fn noise_hi(&self) -> int {
        self.sampler().center_of() + self.sampler().bound_of()
    }

    /// The scheme over `Z[X] / (X^p + 1, q)` with the sampler `gauss`.
    pub fn new(p: i32, q: i32, gauss: Sampling) -> (s: Self)
        requires
            p >= 1,
            q >= 1,
        ensures
            s.p_of() == p,
            s.q_of() == q,
            s.sampler() == gauss,
    {
        let mut f = ZZX::new();
        f.set_coeff(p as usize, Some(int_from_i64(1)));
        f.set_coeff(0, Some(int_from_i64(1)));
        proof {
            let target = ring_modulus(p as int);
            assert forall|j: int| coeff(f@, j) == coeff(target, j) by {
                lemma_with_coeff(Seq::<int>::empty(), p as int, 1, j);
                lemma_with_coeff(
                    crate::zzx::with_coeff(Seq::<int>::empty(), p as int, 1),
                    0,
                    1,
                    j,
                );
            }
            lemma_normal_form_unique(f@, target);
        }
        EncryptionScheme { p, q, f, gauss }
    }

    /// The defining polynomial is monic and of degree `p`.
    fn modulus(&self) -> (f: &ZZX)
        ensures
            f@ == ring_modulus(self.p_of()),
            valid_modulus(f@),
            f@.len() == self.p_of() + 1,
            1 <= self.p_of() <= i32::MAX,
            1 <= self.q_of() <= i32::MAX,
    {
        proof {
            use_type_invariant(self);
        }
        &self.f
    }

    /// Whether a sample is kept as noise: it has to lie strictly between the
    /// bounds.
    pub fn keeps(&self, sample: i64) -> (ok: bool)
        ensures
            ok == (self.noise_lo() < sample < self.noise_hi()),
    {
        let bound: i64 = self.gauss.bound() as i64;
        let center: i64 = self.gauss.center();
        !(sample >= center + bound || sample <= center - bound)
    }

    /// The gathering takes one more sample: see [`gather_step`]. Returns
    /// whether it has given up.
    fn gather_one(&self, kept: &mut Vec<Integer>, run: &mut u32, sample: i64) -> (failed: bool)
        requires
            *old(run) < MAX_DRAWS,
            old(kept).len() < self.p_of(),
        ensures
            self.noise_lo() < sample < self.noise_hi() ==> {
                &&& vals(final(kept)@) == vals(old(kept)@).push(sample as int)
                &&& final(kept).len() == old(kept).len() + 1
                &&& *final(run) == 0
                &&& !failed
            },
            !(self.noise_lo() < sample < self.noise_hi()) ==> {
                &&& vals(final(kept)@) == vals(old(kept)@)
                &&& final(kept).len() == old(kept).len()
                &&& *final(run) == *old(run) + 1
                &&& failed == (*final(run) >= MAX_DRAWS)
            },
            vals(final(kept)@) == gather_step(
                Gathering { kept: vals(old(kept)@), run: *old(run) as nat, failed: false },
                sample as int,
                self.p_of(),
                self.noise_lo(),
                self.noise_hi(),
            ).kept,
    {
        if self.keeps(sample) {
            let c: Integer = int_from_i64(sample);
            proof {
                crate::integer::lemma_vals_push(kept@, c);
            }
            kept.push(c);
            *run = 0;
            false
        } else {
            *run = *run + 1;
            *run >= MAX_DRAWS
        }
    }

    /// The noise polynomial that the samples `samples` give, taken in the
    /// order in which the sampler gave them: the first `p` of them that lie
    /// strictly between the bounds of the noise are its coefficients, lowest
    /// first.
    ///
    /// Fails where `MAX_DRAWS` samples in a row have to be thrown away before
    /// `p` are kept, and where the samples run out before that.
    pub fn poly_sampling_with(&self, samples: &Vec<i64>) -> (r: Result<ZZX, ArithError>)
        ensures
            ({
                let g = gathered(samples@, self.p_of(), self.noise_lo(), self.noise_hi());
                &&& self.p_of() >= 1
                &&& r.is_ok() == (!g.failed && g.kept.len() == self.p_of())
                &&& match r {
                    Ok(a) => {
                        &&& a@ == normalized(g.kept)
                        &&& is_noise(a@, self.p_of(), self.noise_lo(), self.noise_hi())
                    },
                    Err(e) => e == ArithError::SamplerExhausted,
                }
            }),
    {
        let f = self.modulus();
        let p: usize = self.p as usize;
        let ghost lo = self.noise_lo();
        let ghost hi = self.noise_hi();
        let mut kept: Vec<Integer> = Vec::new();
        let mut run: u32 = 0;
        let mut i: usize = 0;
        proof {
            assert(vals(kept@) =~= Seq::<int>::empty());
        }
        while i < samples.len() && kept.len() < p
            invariant
                i <= samples.len(),
                p == self.p_of(),
                1 <= p <= i32::MAX,
                lo == self.noise_lo(),
                hi == self.noise_hi(),
                kept.len() <= p,
                run < MAX_DRAWS,
                gather(samples@, i as int, p as int, lo, hi) == (Gathering {
                    kept: vals(kept@),
                    run: run as nat,
                    failed: false,
                }),
                forall|j: int| 0 <= j < kept.len() ==> lo < val(#[trigger] kept@[j]) < hi,
            decreases samples.len() - i,
        {
            let ghost before = vals(kept@);
            let ghost before_kept = kept@;
            let failed: bool = self.gather_one(&mut kept, &mut run, samples[i]);
            i = i + 1;
            proof {
                assert forall|j: int| 0 <= j < kept.len() implies lo < val(
                    #[trigger] kept@[j],
                ) < hi by {
                    assert(vals(kept@)[j] == val(kept@[j]));
                    if j < before.len() {
                        assert(before[j] == val(before_kept[j]));
                        assert(before[j] == vals(kept@)[j]);
                    }
                }
            }
            if failed {
                proof {
                    lemma_gather_done(samples@, i as int, samples@.len() as int, p as int, lo, hi);
                }
                return Err(ArithError::SamplerExhausted);
            }
        }
        proof {
            if kept.len() == p {
                lemma_gather_done(samples@, i as int, samples@.len() as int, p as int, lo, hi);
            }
        }
        if kept.len() < p {
            return Err(ArithError::SamplerExhausted);
        }
        let ghost vs = vals(kept@);
        let a = ZZX::new_with_vec(kept);
        proof {
            lemma_normalized(vs);
            assert forall|i: int| 0 <= i < p implies lo < #[trigger] coeff(a@, i) < hi by {
                assert(coeff(normalized(vs), i) == coeff(vs, i));
            }
        }
        Ok(a)
    }

    /// Fills `a` with `p` samples, each strictly between the bounds of the
    /// noise: samples are drawn until `p` of them are kept. Fails, and leaves
    /// `a` as it is, where `MAX_DRAWS` samples in a row have to be thrown away.
    pub fn poly_sampling(&self, a: &mut ZZX) -> (r: Result<(), ArithError>)
        ensures
            exists|samples: Seq<i64>|
                {
                    let g = #[trigger] gathered(
                        samples,
                        self.p_of(),
                        self.noise_lo(),
                        self.noise_hi(),
                    );
                    match r {
                        Ok(_) => {
                            &&& !g.failed
                            &&& g.kept.len() == self.p_of()
                            &&& final(a)@ == normalized(g.kept)
                        },
                        Err(e) => g.failed,
                    }
                },
            match r {
                Ok(_) => is_noise(final(a)@, self.p_of(), self.noise_lo(), self.noise_hi()),
                Err(e) => e == ArithError::SamplerExhausted && *final(a) == *old(a),
            },
    {
        let f = self.modulus();
        let p: usize = self.p as usize;
        let ghost lo = self.noise_lo();
        let ghost hi = self.noise_hi();
        let mut kept: Vec<Integer> = Vec::new();
        let mut run: u32 = 0;
        let ghost mut samples: Seq<i64> = Seq::empty();
        proof {
            assert(vals(kept@) =~= Seq::<int>::empty());
        }
        while kept.len() < p
            invariant
                p == self.p_of(),
                1 <= p <= i32::MAX,
                lo == self.noise_lo(),
                hi == self.noise_hi(),
                kept.len() <= p,
                run < MAX_DRAWS,
                *a == *old(a),
                gathered(samples, p as int, lo, hi) == (Gathering {
                    kept: vals(kept@),
                    run: run as nat,
                    failed: false,
                }),
                forall|j: int| 0 <= j < kept.len() ==> lo < val(#[trigger] kept@[j]) < hi,
            decreases p - kept.len(), MAX_DRAWS - run,
        {
            let sample: i64 = self.gauss.knuth_yao();
            let ghost before = vals(kept@);
            let ghost before_kept = kept@;
            let ghost drawn = samples;
            let failed: bool = self.gather_one(&mut kept, &mut run, sample);
            proof {
                samples = drawn.push(sample);
                assert(samples.len() == drawn.len() + 1);
                assert(samples[samples.len() - 1] == sample);
                lemma_gather_prefix(drawn, samples, drawn.len() as int, p as int, lo, hi);
                assert(gathered(samples, p as int, lo, hi) == gather_step(
                    gathered(drawn, p as int, lo, hi),
                    sample as int,
                    p as int,
                    lo,
                    hi,
                ));
                assert forall|j: int| 0 <= j < kept.len() implies lo < val(
                    #[trigger] kept@[j],
                ) < hi by {
                    assert(vals(kept@)[j] == val(kept@[j]));
                    if j < before.len() {
                        assert(before[j] == val(before_kept[j]));
                        assert(before[j] == vals(kept@)[j]);
                    }
                }
            }
            if failed {
                assert(gathered(samples, p as int, lo, hi).failed);
                return Err(ArithError::SamplerExhausted);
            }
        }
        let ghost vs = vals(kept@);
        *a = ZZX::new_with_vec(kept);
        proof {
            lemma_normalized(vs);
            assert forall|i: int| 0 <= i < p implies lo < #[trigger] coeff(final(a)@, i) < hi by {
                assert(coeff(normalized(vs), i) == coeff(vs, i));
            }
        }
        Ok(())
    }

    /// Replaces each of the coefficients `0..p` of `a` by its representative
    /// in `0..q`.
    pub fn reduce(&self, a: &mut ZZX)
        ensures
            final(a)@ == reduce_coeffs(old(a)@, self.q_of(), self.p_of()),
            is_normalized(final(a)@),
            old(a)@.len() <= self.p_of() ==> final(a)@.len() <= self.p_of(),
    {
        let f = self.modulus();
        let p: usize = self.p as usize;
        let q: Integer = int_from_i64(self.q as i64);
        let ghost x = a@;
        let _ = a.coeffs_ref();
        let mut i: usize = 0;
        while i < p
            invariant
                i <= p,
                p == self.p_of(),
                p <= i32::MAX,
                val(q) == self.q_of(),
                val(q) >= 1,
                x == old(a)@,
                is_normalized(a@),
                a@.len() <= x.len() || a@.len() <= p,
                forall|j: int|
                    coeff(a@, j) == (if 0 <= j < i {
                        coeff(x, j) % val(q)
                    } else {
                        coeff(x, j)
                    }),
            decreases p - i,
        {
            let c: Integer = a.coeff(i);
            let m: Integer = coefficient_mod(&c, &q);
            let ghost before = a@;
            a.set_coeff(i, Some(m));
            proof {
                assert forall|j: int|
                    coeff(a@, j) == (if 0 <= j < i + 1 {
                        coeff(x, j) % val(q)
                    } else {
                        coeff(x, j)
                    }) by {
                    lemma_with_coeff(before, i as int, val(m), j);
                    assert(coeff(before, j) == (if 0 <= j < i {
                        coeff(x, j) % val(q)
                    } else {
                        coeff(x, j)
                    }));
                }
                lemma_with_coeff(before, i as int, val(m), 0);
            }
            i = i + 1;
        }
        proof {
            let target = Seq::new(
                longer(x.len(), p as nat),
                |i: int|
                    if i < p as int {
                        coeff(x, i) % self.q_of()
                    } else {
                        coeff(x, i)
                    },
            );
            lemma_normalized(target);
            assert forall|j: int| coeff(a@, j) == coeff(normalized(target), j) by {
                assert(coeff(normalized(target), j) == coeff(target, j));
                assert(coeff(a@, j) == (if 0 <= j < p {
                    coeff(x, j) % val(q)
                } else {
                    coeff(x, j)
                }));
            }
            lemma_normal_form_unique(a@, normalized(target));
        }
    }
}

impl EncryptionScheme {
    /// `a * b mod (X^p + 1)` for ring elements `a` and `b`.
    fn ring_mul(&self, a: &ZZX, b: &ZZX) -> (res: Result<ZZX, ArithError>)
        ensures
            res.is_ok() == (a@.len() <= self.p_of() && b@.len() <= self.p_of()),
            match res {
                Ok(x) => {
                    &&& is_normalized(x@)
                    &&& x@.len() <= self.p_of()
                    &&& is_reduction(poly_mul(a@, b@), ring_modulus(self.p_of()), x@)
                },
                Err(e) => e == ArithError::BadArguments,
            },
    {
        let f = self.modulus();
        if a.deg() >= f.deg() || b.deg() >= f.deg() {
            return Err(ArithError::BadArguments);
        }
        let res = mulmod(a, b, f);
        proof {
            if res.is_ok() {
                let x = res.unwrap()@;
                let q = choose|q: Seq<int>| #[trigger] is_division(poly_mul(a@, b@), f@, q, x);
                assert(x.len() < f@.len());
            }
        }
        res
    }

    /// The public key part `p1 = r1 - a * r2 mod (X^p + 1)`, coefficients
    /// reduced modulo `q`, for the noise polynomials `r1` and `r2`.
    ///
    /// Fails with `BadArguments` where `a` or `r2` has a degree of `p` or
    /// more.
    pub fn key_generation_with(&self, a: &ZZX, r1: &ZZX, r2: &ZZX) -> (res: Result<
        ZZX,
        ArithError,
    >)
        ensures
            res.is_ok() == (a@.len() <= self.p_of() && r2@.len() <= self.p_of()),
            match res {
                Ok(p1) => exists|c: Seq<int>|
                    {
                        &&& #[trigger] is_reduction(
                            poly_mul(a@, r2@),
                            ring_modulus(self.p_of()),
                            c,
                        )
                        &&& p1@ == reduce_coeffs(poly_sub(r1@, c), self.q_of(), self.p_of())
                    },
                Err(e) => e == ArithError::BadArguments,
            },
    {
        let c: ZZX = match self.ring_mul(a, r2) {
            Ok(c) => c,
            Err(e) => {
                return Err(e);
            },
        };
        let mut p1 = ZZX::new();
        crate::linear::sub(&mut p1, r1, &c);
        self.reduce(&mut p1);
        proof {
            assert(is_reduction(poly_mul(a@, r2@), ring_modulus(self.p_of()), c@));
        }
        Ok(p1)
    }

    /// Generates a key pair for the ring element `a`: draws the noise
    /// polynomials `r1` and `r2`, and sets `r2`, the private key, and
    /// `p1 = r1 - a * r2`, the public key.
    ///
    /// Fails with `BadArguments` where `a` has a degree of `p` or more, and
    /// with `SamplerExhausted` where no noise could be drawn. A call that
    /// fails leaves `r2` and `p1` as they are.
    pub fn key_generation(&self, a: &ZZX, r2: &mut ZZX, p1: &mut ZZX) -> (res: Result<
        (),
        ArithError,
    >)
        ensures
            match res {
                Ok(_) => {
                    &&& a@.len() <= self.p_of()
                    &&& is_noise(final(r2)@, self.p_of(), self.noise_lo(), self.noise_hi())
                    &&& exists|r1: Seq<int>, c: Seq<int>|
                        {
                            &&& is_noise(r1, self.p_of(), self.noise_lo(), self.noise_hi())
                            &&& #[trigger] is_reduction(
                                poly_mul(a@, final(r2)@),
                                ring_modulus(self.p_of()),
                                c,
                            )
                            &&& final(p1)@ == #[trigger] reduce_coeffs(
                                poly_sub(r1, c),
                                self.q_of(),
                                self.p_of(),
                            )
                        }
                },
                Err(e) => {
                    &&& *final(r2) == *old(r2)
                    &&& *final(p1) == *old(p1)
                    &&& e == ArithError::BadArguments || e == ArithError::SamplerExhausted
                    &&& e == ArithError::BadArguments ==> a@.len() > self.p_of()
                },
            },
    {
        let mut r1 = ZZX::new();
        let mut s2 = ZZX::new();
        match self.poly_sampling(&mut r1) {
            Ok(_) => {},
            Err(e) => {
                return Err(e);
            },
        }
        match self.poly_sampling(&mut s2) {
            Ok(_) => {},
            Err(e) => {
                return Err(e);
            },
        }
        let key: ZZX = match self.key_generation_with(a, &r1, &s2) {
            Ok(key) => key,
            Err(e) => {
                return Err(e);
            },
        };
        proof {
            let c = choose|c: Seq<int>|
                {
                    &&& #[trigger] is_reduction(poly_mul(a@, s2@), ring_modulus(self.p_of()), c)
                    &&& key@ == reduce_coeffs(poly_sub(r1@, c), self.q_of(), self.p_of())
                };
            assert(is_reduction(poly_mul(a@, s2@), ring_modulus(self.p_of()), c));
            assert(key@ == reduce_coeffs(poly_sub(r1@, c), self.q_of(), self.p_of()));
        }
        *r2 = s2;
        *p1 = key;
        Ok(())
    }

    /// Encodes the message `a`, one bit for every coefficient, as a ring
    /// element: a bit that is set becomes `(q - 1) / 2`.
    pub fn encode(&self, aprime: &mut ZZX, a: &[i32])
        requires
            a.len() >= self.p_of(),
            forall|i: int| 0 <= i < self.p_of() ==> a[i] == 0 || a[i] == 1,
        ensures
            final(aprime)@ == encoded(a@, self.q_of(), self.p_of()),
            is_normalized(final(aprime)@),
            final(aprime)@.len() <= self.p_of(),
    {
        let f = self.modulus();
        let p: usize = self.p as usize;
        let bound: i32 = (self.q - 1) / 2;
        let mut v: Vec<Integer> = Vec::new();
        let mut i: usize = 0;
        while i < p
            invariant
                i <= p,
                p == self.p_of(),
                p <= a.len(),
                bound == (self.q_of() - 1) / 2,
                0 <= bound,
                v.len() == i,
                forall|j: int| 0 <= j < p ==> a[j] == 0 || a[j] == 1,
                forall|j: int|
                    0 <= j < i ==> val(#[trigger] v@[j]) == a[j] * ((self.q_of() - 1) / 2),
            decreases p - i,
        {
            assert(a[i as int] * bound == (if a[i as int] == 1 {
                bound
            } else {
                0
            })) by (nonlinear_arith)
                requires
                    a[i as int] == 0 || a[i as int] == 1,
            ;
            v.push(int_from_i64((a[i] * bound) as i64));
            i = i + 1;
        }
        proof {
            assert(vals(v@) =~= Seq::new(p as nat, |i: int| a@[i] * ((self.q_of() - 1) / 2)));
            lemma_normalized(vals(v@));
        }
        *aprime = ZZX::new_with_vec(v);
    }

    /// Decodes the ring element `aprime` into `a`: bit `i` is set where
    /// coefficient `i` lies from `(q - 1) / 4` up to, but not at, three times
    /// that. Only the first `p` entries of `a` are written.
    pub fn decode(&self, a: &mut Vec<i32>, aprime: &ZZX)
        ensures
            final(a).len() == old(a).len(),
            forall|i: int|
                0 <= i < final(a).len() ==> #[trigger] final(a)[i] == (if i < self.p_of() {
                    decoded_bit(coeff(aprime@, i), self.q_of())
                } else {
                    old(a)[i]
                }),
    {
        let f = self.modulus();
        let p: usize = self.p as usize;
        let quarter: i32 = (self.q - 1) / 4;
        let lbound: Integer = int_from_i64(quarter as i64);
        let ubound: Integer = int_from_i64(3 * (quarter as i64));
        let n: usize = if a.len() < p {
            a.len()
        } else {
            p
        };
        let mut i: usize = 0;
        while i < n
            invariant
                i <= n,
                n <= p,
                n <= a.len(),
                n == p || n == a.len(),
                p == self.p_of(),
                a.len() == old(a).len(),
                val(lbound) == (self.q_of() - 1) / 4,
                val(ubound) == 3 * ((self.q_of() - 1) / 4),
                forall|j: int|
                    0 <= j < a.len() ==> #[trigger] a[j] == (if j < i {
                        decoded_bit(coeff(aprime@, j), self.q_of())
                    } else {
                        old(a)[j]
                    }),
            decreases n - i,
        {
            let c: Integer = aprime.coeff(i);
            let bit: i32 = if !int_lt(&c, &lbound) && int_lt(&c, &ubound) {
                1
            } else {
                0
            };
            a[i] = bit;
            i = i + 1;
        }
    }

    /// The ciphertext of the message `m` under the public key `(a, p1)`, for
    /// the noise polynomials `e1`, `e2` and `e3`: `c1 = a * e1 + e2` and
    /// `c2 = p1 * e1 + e3 + m`, products modulo `X^p + 1` and coefficients
    /// reduced modulo `q`.
    ///
    /// Fails with `BadArguments` where `a`, `p1` or `e1` has a degree of `p`
    /// or more.
    pub fn encryption_with(
        &self,
        a: &ZZX,
        p1: &ZZX,
        m: &ZZX,
        e1: &ZZX,
        e2: &ZZX,
        e3: &ZZX,
    ) -> (res: Result<(ZZX, ZZX), ArithError>)
        ensures
            res.is_ok() == (a@.len() <= self.p_of() && p1@.len() <= self.p_of() && e1@.len()
                <= self.p_of()),
            match res {
                Ok(c) => exists|t1: Seq<int>, t2: Seq<int>|
                    {
                        &&& #[trigger] is_reduction(
                            poly_mul(a@, e1@),
                            ring_modulus(self.p_of()),
                            t1,
                        )
                        &&& #[trigger] is_reduction(
                            poly_mul(p1@, e1@),
                            ring_modulus(self.p_of()),
                            t2,
                        )
                        &&& c.0@ == reduce_coeffs(poly_add(t1, e2@), self.q_of(), self.p_of())
                        &&& c.1@ == reduce_coeffs(
                            poly_add(t2, poly_add(e3@, m@)),
                            self.q_of(),
                            self.p_of(),
                        )
                    },
                Err(e) => e == ArithError::BadArguments,
            },
    {
        let mut sum = ZZX::new();
        crate::linear::add(&mut sum, e3, m);
        let t2: ZZX = match self.ring_mul(p1, e1) {
            Ok(t) => t,
            Err(e) => {
                return Err(e);
            },
        };
        let mut c2 = ZZX::new();
        crate::linear::add(&mut c2, &t2, &sum);
        let t1: ZZX = match self.ring_mul(a, e1) {
            Ok(t) => t,
            Err(e) => {
                return Err(e);
            },
        };
        let mut c1 = ZZX::new();
        crate::linear::add(&mut c1, &t1, e2);
        self.reduce(&mut c1);
        self.reduce(&mut c2);
        proof {
            assert(is_reduction(poly_mul(a@, e1@), ring_modulus(self.p_of()), t1@));
            assert(is_reduction(poly_mul(p1@, e1@), ring_modulus(self.p_of()), t2@));
        }
        Ok((c1, c2))
    }

    /// Encrypts the message `m` under the public key `(a, p1)`: draws the
    /// noise polynomials `e1`, `e2` and `e3`, and sets `c1 = a * e1 + e2` and
    /// `c2 = p1 * e1 + e3 + m`.
    ///
    /// Fails with `BadArguments` where `a` or `p1` has a degree of `p` or
    /// more, and with `SamplerExhausted` where no noise could be drawn. A call
    /// that fails leaves `c1` and `c2` as they are.
    pub fn encryption(&self, c1: &mut ZZX, c2: &mut ZZX, a: &ZZX, p1: &ZZX, m: &ZZX) -> (res:
        Result<(), ArithError>)
        ensures
            match res {
                Ok(_) => {
                    &&& a@.len() <= self.p_of()
                    &&& p1@.len() <= self.p_of()
                    &&& exists|e1: Seq<int>, e2: Seq<int>, e3: Seq<int>, t1: Seq<int>, t2: Seq<int>|
                        {
                            &&& is_noise(e1, self.p_of(), self.noise_lo(), self.noise_hi())
                            &&& is_noise(e2, self.p_of(), self.noise_lo(), self.noise_hi())
                            &&& is_noise(e3, self.p_of(), self.noise_lo(), self.noise_hi())
                            &&& #[trigger] is_reduction(
                                poly_mul(a@, e1),
                                ring_modulus(self.p_of()),
                                t1,
                            )
                            &&& #[trigger] is_reduction(
                                poly_mul(p1@, e1),
                                ring_modulus(self.p_of()),
                                t2,
                            )
                            &&& final(c1)@ == #[trigger] reduce_coeffs(
                                poly_add(t1, e2),
                                self.q_of(),
                                self.p_of(),
                            )
                            &&& final(c2)@ == #[trigger] reduce_coeffs(
                                poly_add(t2, poly_add(e3, m@)),
                                self.q_of(),
                                self.p_of(),
                            )
                        }
                },
                Err(e) => {
                    &&& *final(c1) == *old(c1)
                    &&& *final(c2) == *old(c2)
                    &&& e == ArithError::BadArguments || e == ArithError::SamplerExhausted
                    &&& e == ArithError::BadArguments ==> a@.len() > self.p_of() || p1@.len()
                        > self.p_of()
                },
            },
    {
        let mut e1 = ZZX::new();
        let mut e2 = ZZX::new();
        let mut e3 = ZZX::new();
        match self.poly_sampling(&mut e1) {
            Ok(_) => {},
            Err(e) => {
                return Err(e);
            },
        }
        match self.poly_sampling(&mut e2) {
            Ok(_) => {},
            Err(e) => {
                return Err(e);
            },
        }
        match self.poly_sampling(&mut e3) {
            Ok(_) => {},
            Err(e) => {
                return Err(e);
            },
        }
        let c: (ZZX, ZZX) = match self.encryption_with(a, p1, m, &e1, &e2, &e3) {
            Ok(c) => c,
            Err(e) => {
                return Err(e);
            },
        };
        proof {
            let (t1, t2) = choose|t1: Seq<int>, t2: Seq<int>|
                {
                    &&& #[trigger] is_reduction(poly_mul(a@, e1@), ring_modulus(self.p_of()), t1)
                    &&& #[trigger] is_reduction(poly_mul(p1@, e1@), ring_modulus(self.p_of()), t2)
                    &&& c.0@ == reduce_coeffs(poly_add(t1, e2@), self.q_of(), self.p_of())
                    &&& c.1@ == reduce_coeffs(
                        poly_add(t2, poly_add(e3@, m@)),
                        self.q_of(),
                        self.p_of(),
                    )
                };
            assert(is_reduction(poly_mul(a@, e1@), ring_modulus(self.p_of()), t1));
            assert(is_reduction(poly_mul(p1@, e1@), ring_modulus(self.p_of()), t2));
            assert(c.0@ == reduce_coeffs(poly_add(t1, e2@), self.q_of(), self.p_of()));
            assert(c.1@ == reduce_coeffs(
                poly_add(t2, poly_add(e3@, m@)),
                self.q_of(),
                self.p_of(),
            ));
        }
        *c1 = c.0;
        *c2 = c.1;
        Ok(())
    }

    /// Decrypts the ciphertext `(c1, c2)` with the private key `r2`:
    /// `m = c1 * r2 - c2`, the product modulo `X^p + 1` and the coefficients
    /// reduced modulo `q`.
    ///
    /// Fails with `BadArguments`, and leaves `m` as it is, where `c1` or `r2`
    /// has a degree of `p` or more.
    pub fn decryption(&self, m: &mut ZZX, c1: &ZZX, c2: &ZZX, r2: &ZZX) -> (res: Result<
        (),
        ArithError,
    >)
        ensures
            res.is_ok() == (c1@.len() <= self.p_of() && r2@.len() <= self.p_of()),
            match res {
                Ok(_) => exists|t: Seq<int>|
                    {
                        &&& #[trigger] is_reduction(
                            poly_mul(c1@, r2@),
                            ring_modulus(self.p_of()),
                            t,
                        )
                        &&& final(m)@ == reduce_coeffs(poly_sub(t, c2@), self.q_of(), self.p_of())
                    },
                Err(e) => e == ArithError::BadArguments && *final(m) == *old(m),
            },
    {
        let t: ZZX = match self.ring_mul(c1, r2) {
            Ok(t) => t,
            Err(e) => {
                return Err(e);
            },
        };
        let mut x = ZZX::new();
        crate::linear::sub(&mut x, &t, c2);
        self.reduce(&mut x);
        proof {
            assert(is_reduction(poly_mul(c1@, r2@), ring_modulus(self.p_of()), t@));
        }
        *m = x;
        Ok(())
    }
}

impl Clone for EncryptionScheme {
    fn clone(&self) -> (r: Self)
        ensures
            r.p_of() == self.p_of(),
            r.q_of() == self.q_of(),
            r.sampler().matrix() == self.sampler().matrix(),
            r.sampler().begins() == self.sampler().begins(),
            r.sampler().bound_of() == self.sampler().bound_of(),
            r.sampler().center_of() == self.sampler().center_of(),
    {
        proof {
            use_type_invariant(self);
        }
        EncryptionScheme { p: self.p, q: self.q, f: self.f.clone(), gauss: self.gauss.clone() }
    }
}

} // verus!
