//! Random bits. The generator is the thread-local one of the `rand` crate;
//! this module only cuts the words it hands out down to the width asked for.

use crate::integer::{int_from_u64, val, vals};
use crate::poly::{coeff, is_normalized, lemma_normalized, normalized};
use crate::zzx::{fits, ZZX};
use rug::Integer;
use vstd::prelude::*;

verus! {

/// The number of coefficients of a ring element in the default parameter set.
pub const P: usize = 14;

/// The coefficient modulus of the default parameter set.
pub const Q: usize = 179424673;

/// The word whose lowest `bits` bits are set.
pub open spec fn low_mask(bits: u8) -> u64 {
    if bits >= 64 {
        u64::MAX
    } else {
        ((1u64 << (bits as u64)) - 1) as u64
    }
}

/// The lowest `bits` bits of `word`.
pub open spec fn low_bits(word: u64, bits: u8) -> u64 {
    word & low_mask(bits)
}

/// The lowest `bits` bits of `word` without the sign bit, as a signed number.
pub open spec fn low_bits_signed(word: u64, bits: u8) -> i64 {
    (word & low_mask(bits) & 0x7fff_ffff_ffff_ffffu64) as i64
}

/// The polynomial whose coefficients are the numbers drawn, lowest first.
pub open spec fn poly_of_draws(draws: Seq<u64>) -> Seq<int> {
    normalized(Seq::new(draws.len(), |i: int| draws[i] as int))
}

/// `rand::random::<u64>`: a word from the thread-local generator. Nothing is
/// known of the word: every value can come back.
#[verifier::external_body]
fn random_word() -> (r: u64) {
    rand::random::<u64>()
}

/// The lowest `bits` bits of `word`.
pub fn low_bits_u64(word: u64, bits: u8) -> (r: u64)
    requires
        1 <= bits <= 64,
    ensures
        r == low_bits(word, bits),
        r <= low_mask(bits),
{
    let mask: u64 = if bits == 64 {
        u64::MAX
    } else {
        assert((1u64 << (bits as u64)) >= 1) by (bit_vector)
            requires
                bits < 64,
        ;
        (1u64 << (bits as u64)) - 1
    };
    assert(word & mask <= mask) by (bit_vector);
    word & mask
}

/// The lowest `bits` bits of `word` as a signed number that is never
/// negative: with `bits` at 64 the sign bit is cleared as well.
pub fn low_bits_i64(word: u64, bits: u8) -> (r: i64)
    requires
        1 <= bits <= 64,
    ensures
        r == low_bits_signed(word, bits),
        0 <= r <= low_mask(bits),
{
    let low: u64 = low_bits_u64(word, bits);
    let cut: u64 = low & 0x7fff_ffff_ffff_ffffu64;
    assert(cut <= low && cut <= 0x7fff_ffff_ffff_ffffu64) by (bit_vector)
        requires
            cut == low & 0x7fff_ffff_ffff_ffffu64,
    ;
    cut as i64
}

/// A random number of `bits` bits: a fresh random word cut down to its lowest
/// `bits` bits.
pub fn randombits_u64(bits: u8) -> (r: u64)
    requires
        1 <= bits <= 64,
    ensures
        exists|word: u64| r == #[trigger] low_bits(word, bits),
        r <= low_mask(bits),
{
    let word: u64 = random_word();
    let r: u64 = low_bits_u64(word, bits);
    assert(r == low_bits(word, bits));
    r
}

/// A random number of `bits` bits that is never negative: a fresh random
/// word cut down to its lowest `bits` bits, the sign bit cleared.
pub fn randombits_i64(bits: u8) -> (r: i64)
    requires
        1 <= bits <= 64,
    ensures
        exists|word: u64| r == #[trigger] low_bits_signed(word, bits),
        0 <= r <= low_mask(bits),
{
    let word: u64 = random_word();
    let r: i64 = low_bits_i64(word, bits);
    assert(r == low_bits_signed(word, bits));
    r
}

/// A random message for the default parameter set: `P` bits, each zero or
/// one.
pub fn random_message() -> (r: Vec<i32>)
    ensures
        r.len() == P,
        forall|i: int| 0 <= i < r.len() ==> r[i] == 0 || r[i] == 1,
{
    let mut a: Vec<i32> = Vec::new();
    let mut i: usize = 0;
    while i < P
        invariant
            i <= P,
            a.len() == i,
            forall|j: int| 0 <= j < a.len() ==> a[j] == 0 || a[j] == 1,
        decreases P - i,
    {
        let bit: i64 = randombits_i64(1);
        assert(low_mask(1) == 1) by (bit_vector)
            requires
                low_mask(1) == ((1u64 << 1u64) - 1) as u64,
        ;
        a.push(bit as i32);
        i = i + 1;
    }
    a
}

/// The position of the highest bit that is set in `n`: the whole part of the
/// binary logarithm.
pub fn floor_log2(n: u64) -> (r: u32)
    requires
        n >= 1,
    ensures
        r < 64,
        n >> (r as u64) == 1,
{
    let mut r: u32 = 0;
    let mut m: u64 = n;
    assert(n >> 0u64 == n) by (bit_vector);
    while m > 1
        invariant
            r < 64,
            m >= 1,
            m == n >> (r as u64),
        decreases m,
    {
        assert(r < 63 && (n >> (r as u64)) >> 1u64 == n >> ((r + 1) as u64) && (n >> (r as u64))
            >> 1u64 < n >> (r as u64) && (n >> (r as u64)) >> 1u64 >= 1) by (bit_vector)
            requires
                r < 64,
                n >> (r as u64) > 1u64,
        ;
        m = m >> 1;
        r = r + 1;
    }
    r
}

/// The polynomial whose coefficients are the numbers `draws`, lowest first.
pub fn poly_from_draws(draws: &Vec<u64>) -> (a: ZZX)
    requires
        fits(draws.len() as int),
    ensures
        a@ == poly_of_draws(draws@),
        is_normalized(a@),
{
    let mut v: Vec<Integer> = Vec::new();
    let mut i: usize = 0;
    while i < draws.len()
        invariant
            i <= draws.len(),
            v.len() == i,
            forall|j: int| 0 <= j < i ==> val(#[trigger] v@[j]) == draws[j],
        decreases draws.len() - i,
    {
        v.push(int_from_u64(draws[i]));
        i = i + 1;
    }
    proof {
        assert(vals(v@) =~= Seq::new(draws@.len(), |i: int| draws@[i] as int));
    }
    ZZX::new_with_vec(v)
}

/// A random ring element for the default parameter set: `P` coefficients,
/// each a random number of a quarter of the bits of `Q`, which is six.
pub fn random_poly() -> (a: ZZX)
    ensures
        exists|draws: Seq<u64>|
            {
                &&& draws.len() == P
                &&& forall|i: int| 0 <= i < P ==> #[trigger] draws[i] <= low_mask(6)
                &&& a@ == #[trigger] poly_of_draws(draws)
            },
        is_normalized(a@),
        a@.len() <= P,
        forall|i: int| 0 <= i < P ==> 0 <= #[trigger] coeff(a@, i) <= low_mask(6),
{
    let bits: u32 = floor_log2(Q as u64) / 4;
    assert(bits == 6) by {
        assert(forall|k: u64| k < 64 && 179424673u64 >> k == 1 ==> k == 27) by (bit_vector);
    }
    let mut draws: Vec<u64> = Vec::new();
    let mut i: usize = 0;
    while i < P
        invariant
            i <= P,
            draws.len() == i,
            bits == 6,
            forall|j: int| 0 <= j < i ==> #[trigger] draws[j] <= low_mask(6),
        decreases P - i,
    {
        draws.push(randombits_u64(bits as u8));
        i = i + 1;
    }
    let a = poly_from_draws(&draws);
    proof {
        let s = Seq::new(draws@.len(), |i: int| draws@[i] as int);
        lemma_normalized(s);
        assert forall|i: int| 0 <= i < P implies 0 <= #[trigger] coeff(a@, i) <= low_mask(6) by {
            assert(coeff(normalized(s), i) == coeff(s, i));
            assert(draws@[i] <= low_mask(6));
        }
        assert(a@ == poly_of_draws(draws@));
    }
    a
}

} // verus!
