//! The discrete Gaussian sampler.
//!
//! The sampler is driven by a table of bits: row `j` holds, for every offset
//! from the centre, binary digit `j` of the probability of that offset. The
//! table is built once; drawing a sample walks it with fresh random bits.
//!
//! Probabilities reach this module as integers: the probability `t` of an
//! offset is handed over as `floor(t * 2^precision)`. The probability of the
//! offset zero is halved here, since the table serves both signs: zero would
//! otherwise be drawn twice as often as its density says. The table has one
//! row for every bit of that precision.
//!
//! A sample is the offset that the walk chooses, taken from the bound, moved
//! by the centre and given a sign that is drawn afresh for every sample. A
//! walk that chooses no offset falls back to the first column, which stands
//! for the bound itself.

use crate::integer::{
    int_below, int_div_rem, int_from_i64, int_is, int_lt, int_pow, int_sub, val, vals,
};
use crate::random::{randombits_i64, randombits_u64};
use crate::zzx::clone_coeffs;
use rug::Integer;
use vstd::arithmetic::div_mod::{lemma_mod_bound, lemma_mod_breakdown, lemma_small_mod};
use vstd::arithmetic::power::{lemma_pow_positive, pow};
use vstd::prelude::*;

verus! {

/// Picks `b` where `bit` is set and `a` where it is not, without branching on
/// `bit`: the choice is made by masking.
pub fn select(a: i64, b: i64, bit: bool) -> (r: i64)
    ensures
        r == (if bit {
            b
        } else {
            a
        }),
{
    let mask: i64 = -(bit as i64);
    let r: i64 = a ^ ((a ^ b) & mask);
    assert(r == (if bit {
        b
    } else {
        a
    })) by (bit_vector)
        requires
            mask == (if bit {
                -1i64
            } else {
                0i64
            }),
            r == a ^ ((a ^ b) & mask),
    ;
    r
}

/// What is left of the scaled probability `v` after the digits of the rows
/// `0..j` have been taken off: row `i` takes off `2^(prec - 1 - i)` where that
/// much is left.
pub open spec fn residue(v: int, prec: nat, j: nat) -> int
    decreases j,
{
    if j == 0 {
        v
    } else {
        let r = residue(v, prec, (j - 1) as nat);
        let w = pow(2, (prec - j) as nat);
        if r >= w {
            r - w
        } else {
            r
        }
    }
}

/// Binary digit `j` of the scaled probability `v`, the digit of weight
/// `2^-(j + 1)`: one where what the rows before have left reaches
/// `2^(prec - 1 - j)`.
pub open spec fn digit(v: int, prec: nat, j: nat) -> int {
    if residue(v, prec, j) >= pow(2, (prec - 1 - j) as nat) {
        1
    } else {
        0
    }
}

/// Below one, what the rows `0..j` leave of a scaled probability is what
/// lies below the weight of row `j - 1`: the probability modulo
/// `2^(prec - j)`.
pub proof fn lemma_residue_is_remainder(v: int, prec: nat, j: nat)
    requires
        0 <= v < pow(2, prec),
        j <= prec,
    ensures
        residue(v, prec, j) == v % pow(2, (prec - j) as nat),
    decreases j,
{
    if j == 0 {
        lemma_small_mod(v as nat, pow(2, prec) as nat);
    } else {
        lemma_residue_is_remainder(v, prec, (j - 1) as nat);
        let w = pow(2, (prec - j) as nat);
        lemma_pow_positive(2, (prec - j) as nat);
        reveal(pow);
        assert(pow(2, (prec - j + 1) as nat) == 2 * w);
        lemma_mod_breakdown(v, w, 2);
        lemma_mod_bound(v, w);
        assert(w * 2 == 2 * w);
        let bit = (v / w) % 2;
        assert(bit == 0 || bit == 1);
        assert(w * bit == (if bit == 1 {
            w
        } else {
            0
        })) by (nonlinear_arith)
            requires
                bit == 0 || bit == 1,
        ;
    }
}

/// Below one, the digits of a scaled probability are its binary digits:
/// digit `j` is bit `prec - 1 - j` of the number.
pub proof fn lemma_digit_is_binary(v: int, prec: nat, j: nat)
    requires
        0 <= v < pow(2, prec),
        j < prec,
    ensures
        digit(v, prec, j) == (v / pow(2, (prec - 1 - j) as nat)) % 2,
{
    lemma_residue_is_remainder(v, prec, j);
    let w = pow(2, (prec - 1 - j) as nat);
    lemma_pow_positive(2, (prec - 1 - j) as nat);
    reveal(pow);
    assert(pow(2, (prec - j) as nat) == 2 * w);
    lemma_mod_breakdown(v, w, 2);
    lemma_mod_bound(v, w);
    assert(w * 2 == 2 * w);
    let bit = (v / w) % 2;
    assert(bit == 0 || bit == 1);
    assert(w * bit == (if bit == 1 {
        w
    } else {
        0
    })) by (nonlinear_arith)
        requires
            bit == 0 || bit == 1,
    ;
}

/// Half of a number, rounded towards zero.
pub open spec fn half(v: int) -> int {
    if v >= 0 {
        v / 2
    } else {
        -((-v) / 2)
    }
}

/// The probabilities of the offsets from the centre for a table that serves
/// both signs: the offset zero, which has one sign only, counts half.
pub open spec fn folded(probs: Seq<int>) -> Seq<int> {
    if probs.len() == 0 {
        probs
    } else {
        probs.update(0, half(probs[0]))
    }
}

/// The table of bits for the scaled probabilities `probs`, which are listed
/// by offset: row `j`, column `c` holds digit `j` of the probability of the
/// offset `probs.len() - 1 - c`.
pub open spec fn expansion(probs: Seq<int>, prec: nat) -> Seq<Seq<int>> {
    Seq::new(
        prec,
        |j: int| Seq::new(probs.len(), |c: int| digit(probs[probs.len() - 1 - c], prec, j as nat)),
    )
}

/// `b` is where the scan of a row starts: the first column that holds a one,
/// or the last column where the row holds none.
pub open spec fn is_begin(row: Seq<int>, b: int) -> bool {
    &&& 0 <= b < row.len()
    &&& forall|c: int| 0 <= c < b ==> row[c] != 1
    &&& row[b] == 1 || b == row.len() - 1
}

/// The bits of a row as numbers.
pub open spec fn row_view(row: Seq<i64>) -> Seq<int> {
    Seq::new(row.len(), |c: int| row[c] as int)
}

/// The bits of a table as numbers.
pub open spec fn table_view(p: Seq<Vec<i64>>) -> Seq<Seq<int>> {
    Seq::new(p.len(), |r: int| row_view(p[r]@))
}

/// Whether a table of `precision` rows for the offsets `0..=bound` can be
/// walked without the sum of the columns visited leaving the machine's
/// integers.
pub open spec fn table_fits(precision: int, bound: int) -> bool {
    precision * ((bound + 1) * (bound + 1)) <= i64::MAX
}

/// The largest magnitude of a centre.
pub const CENTER_MAX: i64 = 0x2000_0000_0000_0000;

/// A sampler for a discrete Gaussian distribution: the table of probability
/// bits, and for every row the column at which its scan starts.
#[derive(Debug)]
pub struct Sampling {
    p: Vec<Vec<i64>>,
    begin: Vec<i64>,
    precision: u32,
    bound: usize,
    center: i64,
}

/// The first column of `row` that holds a one, or the last column where there
/// is none.
fn first_one(row: &Vec<i64>) -> (b: usize)
    requires
        row.len() >= 1,
    ensures
        is_begin(row_view(row@), b as int),
{
    let mut j: usize = 0;
    while j + 1 < row.len() && row[j] != 1
        invariant
            j < row.len(),
            forall|c: int| 0 <= c < j ==> row[c] != 1,
        decreases row.len() - j,
    {
        j = j + 1;
    }
    j
}

/// Once nothing is left of a probability, nothing is left in the rows after.
pub proof fn lemma_residue_stays_empty(v: int, prec: nat, j: nat, k: nat)
    requires
        j <= k <= prec,
        residue(v, prec, j) <= 0,
    ensures
        residue(v, prec, k) == residue(v, prec, j),
    decreases k,
{
    if k > j {
        lemma_residue_stays_empty(v, prec, j, (k - 1) as nat);
        lemma_pow_positive(2, (prec - k) as nat);
    }
}

/// Writes the binary digits of the scaled probability `probability` into
/// column `index` of `aux_p`, one digit a row, from row zero on. The rows
/// from the one on at which nothing is left of the probability are not
/// written.
pub fn binary_expansion(
    aux_p: &mut Vec<Vec<i64>>,
    probability: Integer,
    precision: u32,
    index: usize,
)
    requires
        old(aux_p).len() >= precision,
        forall|r: int| 0 <= r < precision ==> index < (#[trigger] old(aux_p)[r]).len(),
    ensures
        final(aux_p).len() == old(aux_p).len(),
        forall|r: int|
            0 <= r < final(aux_p).len() ==> (#[trigger] final(aux_p)[r]).len()
                == old(aux_p)[r].len(),
        forall|r: int, c: int|
            0 <= r < final(aux_p).len() && 0 <= c < final(aux_p)[r].len()
                ==> #[trigger] final(aux_p)[r][c] == (if c == index && r < precision && residue(
                val(probability),
                precision as nat,
                r as nat,
            ) > 0 {
                digit(val(probability), precision as nat, r as nat) as i64
            } else {
                old(aux_p)[r][c]
            }),
{
    let ghost v = val(probability);
    let ghost prec = precision as nat;
    let two: Integer = int_from_i64(2);
    let mut left: Integer = probability;
    let mut j: u32 = 0;
    while j < precision && !int_is(&left, 0) && !int_below(&left, 0)
        invariant
            j <= precision,
            prec == precision as nat,
            v == val(probability),
            val(two) == 2,
            val(left) == residue(v, prec, j as nat),
            aux_p.len() == old(aux_p).len(),
            aux_p.len() >= precision,
            forall|r: int|
                0 <= r < aux_p.len() ==> (#[trigger] aux_p[r]).len() == old(aux_p)[r].len(),
            forall|r: int| 0 <= r < precision ==> index < (#[trigger] old(aux_p)[r]).len(),
            forall|r: nat| r < j ==> #[trigger] residue(v, prec, r) > 0,
            forall|r: int, c: int|
                0 <= r < aux_p.len() && 0 <= c < aux_p[r].len() ==> #[trigger] aux_p[r][c] == (if c
                    == index && r < j {
                    digit(v, prec, r as nat) as i64
                } else {
                    old(aux_p)[r][c]
                }),
        decreases precision - j,
    {
        let weight: Integer = int_pow(&two, precision - 1 - j);
        if !int_lt(&left, &weight) {
            aux_p[j as usize][index] = 1;
            left = int_sub(&left, &weight);
        } else {
            aux_p[j as usize][index] = 0;
        }
        j = j + 1;
    }
    proof {
        assert forall|r: nat| j <= r < precision implies #[trigger] residue(v, prec, r) <= 0 by {
            if j < precision {
                lemma_residue_stays_empty(v, prec, j as nat, r);
            }
        }
    }
}

/// The table of bits for the scaled probabilities `probabilities`, listed by
/// offset: the probability of the offset zero is halved, and every
/// probability is then expanded into its binary digits.
fn build_probability_matrix(precision: u32, probabilities: &Vec<Integer>) -> (p: Vec<Vec<i64>>)
    requires
        probabilities.len() >= 1,
    ensures
        table_view(p@) == expansion(folded(vals(probabilities@)), precision as nat),
        p.len() == precision,
        forall|r: int| 0 <= r < p.len() ==> (#[trigger] p[r]).len() == probabilities.len(),
        forall|r: int, c: int|
            0 <= r < p.len() && 0 <= c < probabilities.len() ==> (#[trigger] p[r][c] == 0
                || p[r][c] == 1),
{
    let cols: usize = probabilities.len();
    let ghost probs = folded(vals(probabilities@));
    let ghost prec = precision as nat;
    let mut left: Vec<Integer> = clone_coeffs(probabilities);
    let two: Integer = int_from_i64(2);
    let (halved, _) = int_div_rem(&left[0], &two);
    left[0] = halved;
    proof {
        assert(vals(left@) =~= probs);
    }
    let mut p: Vec<Vec<i64>> = Vec::new();
    let mut j: u32 = 0;
    while j < precision
        invariant
            j <= precision,
            prec == precision as nat,
            cols == probabilities.len(),
            probs.len() == cols,
            val(two) == 2,
            left.len() == cols,
            p.len() == j,
            forall|x: int|
                0 <= x < cols ==> val(#[trigger] left@[x]) == residue(probs[x], prec, j as nat),
            forall|r: int| 0 <= r < j ==> (#[trigger] p[r]).len() == cols,
            forall|r: int, c: int|
                0 <= r < j && 0 <= c < cols ==> #[trigger] p[r][c] == digit(
                    probs[cols - 1 - c],
                    prec,
                    r as nat,
                ),
        decreases precision - j,
    {
        let weight: Integer = int_pow(&two, precision - 1 - j);
        let mut row: Vec<i64> = Vec::new();
        let mut c: usize = 0;
        while c < cols
            invariant
                c <= cols,
                j < precision,
                prec == precision as nat,
                cols == probabilities.len(),
                probs.len() == cols,
                left.len() == cols,
                row.len() == c,
                val(weight) == pow(2, (prec - 1 - j) as nat),
                forall|x: int|
                    0 <= x < cols - c
                        ==> val(#[trigger] left@[x]) == residue(probs[x], prec, j as nat),
                forall|x: int|
                    cols - c <= x < cols ==> val(#[trigger] left@[x]) == residue(
                        probs[x],
                        prec,
                        (j + 1) as nat,
                    ),
                forall|k: int|
                    0 <= k < c ==> #[trigger] row[k] == digit(probs[cols - 1 - k], prec, j as nat),
            decreases cols - c,
        {
            let x: usize = cols - 1 - c;
            if !int_lt(&left[x], &weight) {
                let rest: Integer = int_sub(&left[x], &weight);
                left[x] = rest;
                row.push(1);
            } else {
                row.push(0);
            }
            c = c + 1;
        }
        p.push(row);
        j = j + 1;
    }
    proof {
        assert(table_view(p@) =~~= expansion(probs, prec));
    }
    p
}

impl Sampling {
    #[verifier::type_invariant]
    spec fn inv(&self) -> bool {
        &&& self.precision >= 1
        &&& self.p.len() == self.precision
        &&& self.begin.len() == self.precision
        &&& table_fits(self.precision as int, self.bound as int)
        &&& -CENTER_MAX <= self.center <= CENTER_MAX
        &&& forall|r: int| 0 <= r < self.p.len() ==> (#[trigger] self.p[r]).len() == self.bound + 1
        &&& forall|r: int, c: int|
            0 <= r < self.p.len() && 0 <= c <= self.bound ==> (#[trigger] self.p[r][c] == 0
                || self.p[r][c] == 1)
        &&& forall|r: int|
            0 <= r < self.p.len()
                ==> is_begin(row_view(self.p[r]@), #[trigger] self.begin[r] as int)
    }

    /// The table of bits: row `j`, column `c` holds digit `j` of the
    /// probability of the offset `bound - c`.
    pub closed spec fn matrix(&self) -> Seq<Seq<int>> {
        table_view(self.p@)
    }

    /// For every row, the column at which its scan starts.
    pub closed spec fn begins(&self) -> Seq<int> {
        Seq::new(self.begin@.len(), |r: int| self.begin@[r] as int)
    }

    /// The largest offset from the centre that the table covers.
    pub closed spec fn bound_of(&self) -> int {
        self.bound as int
    }

    /// The centre of the distribution.
    pub closed spec fn center_of(&self) -> int {
        self.center as int
    }

    /// The number of rows of the table.
    pub closed spec fn precision_of(&self) -> int {
        self.precision as int
    }

    /// A sampler with a table of `precision` rows for the offsets `0..=bound`
    /// around `center`. `probabilities[x]` is the probability of a sample at
    /// the offset `x` to one side of the centre, scaled by `2^precision` and
    /// rounded down. The table serves both sides, so the offset zero enters
    /// it with half of its probability.
    pub fn new(precision: u32, bound: usize, center: i64, probabilities: &Vec<Integer>) -> (s:
        Self)
        requires
            precision >= 1,
            probabilities.len() == bound + 1,
            table_fits(precision as int, bound as int),
            -CENTER_MAX <= center <= CENTER_MAX,
        ensures
            s.precision_of() == precision,
            s.bound_of() == bound,
            s.center_of() == center,
            s.matrix() == expansion(folded(vals(probabilities@)), precision as nat),
            s.begins().len() == precision,
            forall|r: int| 0 <= r < precision ==> is_begin(s.matrix()[r], #[trigger] s.begins()[r]),
    {
        let p: Vec<Vec<i64>> = build_probability_matrix(precision, probabilities);
        let mut begin: Vec<i64> = Vec::new();
        let mut r: usize = 0;
        proof {
            assert((bound + 1) * (bound + 1) <= i64::MAX) by (nonlinear_arith)
                requires
                    precision >= 1,
                    precision * ((bound + 1) * (bound + 1)) <= i64::MAX,
            ;
            assert(bound + 1 <= i64::MAX) by (nonlinear_arith)
                requires
                    (bound + 1) * (bound + 1) <= i64::MAX,
                    bound >= 0,
            ;
        }
        while r < p.len()
            invariant
                r <= p.len(),
                begin.len() == r,
                bound + 1 <= i64::MAX,
                forall|i: int| 0 <= i < p.len() ==> (#[trigger] p[i]).len() == bound + 1,
                forall|i: int| 0 <= i < r ==> is_begin(row_view(p[i]@), #[trigger] begin[i] as int),
            decreases p.len() - r,
        {
            let b: usize = first_one(&p[r]);
            begin.push(b as i64);
            r = r + 1;
        }
        let s = Sampling { p, begin, precision, bound, center };
        proof {
            assert forall|r: int| 0 <= r < precision implies is_begin(
                s.matrix()[r],
                #[trigger] s.begins()[r],
            ) by {
                assert(is_begin(row_view(s.p[r]@), s.begin[r] as int));
            }
        }
        s
    }

    /// The number of rows of the table.
    pub fn rows(&self) -> (n: usize)
        ensures
            n == self.precision_of(),
            n == self.matrix().len(),
    {
        proof {
            use_type_invariant(self);
        }
        self.p.len()
    }

    /// The number of columns of the table: one for every offset.
    pub fn columns(&self) -> (n: usize)
        ensures
            n == self.bound_of() + 1,
    {
        proof {
            use_type_invariant(self);
        }
        self.p[0].len()
    }

    /// The largest offset from the centre that the table covers.
    pub fn bound(&self) -> (b: usize)
        ensures
            b == self.bound_of(),
            b < 0x1_0000_0000,
    {
        proof {
            use_type_invariant(self);
            let cols = self.bound + 1;
            assert(cols * cols <= i64::MAX) by (nonlinear_arith)
                requires
                    self.precision >= 1,
                    self.precision * (cols * cols) <= i64::MAX,
            ;
            assert(cols <= 0x1_0000_0000) by (nonlinear_arith)
                requires
                    cols * cols <= i64::MAX,
                    cols >= 0,
            ;
        }
        self.bound
    }

    /// The centre of the distribution.
    pub fn center(&self) -> (c: i64)
        ensures
            c == self.center_of(),
            -CENTER_MAX <= c <= CENTER_MAX,
    {
        proof {
            use_type_invariant(self);
        }
        self.center
    }

    /// The bit in row `row` and column `col` of the table.
    pub fn bit(&self, row: usize, col: usize) -> (b: i64)
        requires
            row < self.precision_of(),
            col <= self.bound_of(),
        ensures
            b == self.matrix()[row as int][col as int],
            b == 0 || b == 1,
    {
        proof {
            use_type_invariant(self);
        }
        self.p[row][col]
    }

    /// The column at which the scan of row `row` starts.
    pub fn begin_of(&self, row: usize) -> (b: i64)
        requires
            row < self.precision_of(),
        ensures
            b == self.begins()[row as int],
            is_begin(self.matrix()[row as int], b as int),
    {
        proof {
            use_type_invariant(self);
        }
        self.begin[row]
    }
}

/// Where a walk through the table stands: the distance `d`, whether a column
/// has been chosen, and the column chosen (zero while there is none).
pub struct WalkState {
    pub d: int,
    pub hit: bool,
    pub col: int,
}

/// One table entry: the entry is taken off the distance, and the column is
/// chosen where that brings the distance to `-1` for the first time.
pub open spec fn walk_step(st: WalkState, entry: int, col: int) -> WalkState {
    let d = st.d - entry;
    if d == -1 && !st.hit {
        WalkState { d, hit: true, col }
    } else {
        WalkState { d, hit: st.hit, col: st.col }
    }
}

/// The columns `from..to` of one row, in order.
pub open spec fn walk_row(row: Seq<int>, st: WalkState, from: int, to: int) -> WalkState
    decreases to - from,
{
    if to <= from {
        st
    } else {
        walk_step(walk_row(row, st, from, to - 1), row[to - 1], to - 1)
    }
}

/// The first `rows` rows of the table, in order: each row doubles the
/// distance, adds its random bit, and is scanned from its starting column to
/// its last.
pub open spec fn walk_rows(
    m: Seq<Seq<int>>,
    begins: Seq<int>,
    bits: Seq<int>,
    rows: int,
) -> WalkState
    decreases rows,
{
    if rows <= 0 {
        WalkState { d: 0, hit: false, col: 0 }
    } else {
        let prev = walk_rows(m, begins, bits, rows - 1);
        let r = rows - 1;
        walk_row(
            m[r],
            WalkState { d: 2 * prev.d + bits[r], hit: prev.hit, col: prev.col },
            begins[r],
            m[r].len() as int,
        )
    }
}

/// The random bits as numbers.
pub open spec fn bits_view(bits: Seq<i64>) -> Seq<int> {
    Seq::new(bits.len(), |i: int| bits[i] as int)
}

/// The magnitude beyond which the distance is no longer followed exactly.
const LIMIT: i64 = 0x1000_0000_0000_0000;

/// The distance `de` that the walk keeps stands for the true distance `ds`:
/// they are equal, or both are so far above or below `-1` that neither comes
/// back to it.
spec fn tracks(de: int, ds: int, slack: int) -> bool {
    ||| de == ds
    ||| (de >= LIMIT - slack && ds >= de)
    ||| (de <= -(LIMIT / 2) && ds <= de)
}

impl Sampling {
    /// The offset that a walk with the random bits `bits` chooses: the column
    /// at which the distance first reaches `-1`, or zero where it never does.
    pub open spec fn chosen_column(&self, bits: Seq<int>) -> int {
        walk_rows(self.matrix(), self.begins(), bits, self.matrix().len() as int).col
    }

    /// The sample that the random bits `bits` and the sign give.
    pub open spec fn sample_of(&self, bits: Seq<int>, negative: bool) -> int {
        let v = self.chosen_column(bits) - self.bound_of() + self.center_of();
        if negative {
            -v
        } else {
            v
        }
    }

    /// The sample that the random bits `random_bits`, one for every row of
    /// the table, and the sign bit give. A sign bit of one negates.
    ///
    /// The walk visits every entry from the starting column of each row on,
    /// whatever the bits are, and picks the column by masking.
    pub fn knuth_yao_with(&self, random_bits: &Vec<i64>, sign_bit: i64) -> (r: i64)
        requires
            random_bits.len() == self.precision_of(),
            forall|i: int|
                0 <= i < random_bits.len() ==> random_bits[i] == 0 || random_bits[i] == 1,
            sign_bit == 0 || sign_bit == 1,
        ensures
            r == self.sample_of(bits_view(random_bits@), sign_bit == 1),
            0 <= self.chosen_column(bits_view(random_bits@)) <= self.bound_of(),
            0 <= 2 * self.center_of() <= self.bound_of() ==> self.center_of() - self.bound_of()
                <= r <= self.center_of() + self.bound_of(),
    {
        proof {
            use_type_invariant(self);
        }
        let rows: usize = self.p.len();
        let cols: usize = self.p[0].len();
        let invalid: i64 = cols as i64;
        let ghost m = self.matrix();
        let ghost bg = self.begins();
        let ghost bits = bits_view(random_bits@);
        proof {
            assert(cols * cols <= i64::MAX) by (nonlinear_arith)
                requires
                    rows >= 1,
                    rows * (cols * cols) <= i64::MAX,
            ;
            assert(cols <= 0x1_0000_0000) by (nonlinear_arith)
                requires
                    cols * cols <= i64::MAX,
                    cols >= 0,
            ;
        }
        let mut d: i64 = 0;
        let mut hit: i64 = 0;
        let mut s: i64 = 0;
        let ghost mut st = WalkState { d: 0, hit: false, col: 0 };
        let ghost mut steps: int = 0;
        let mut row: usize = 0;
        while row < rows
            invariant
                row <= rows,
                rows == self.p.len(),
                rows == self.precision,
                rows >= 1,
                1 <= cols <= 0x1_0000_0000,
                invalid == cols,
                cols == self.bound + 1,
                rows * (cols * cols) <= i64::MAX,
                random_bits.len() == rows,
                forall|i: int|
                    0 <= i < random_bits.len() ==> random_bits[i] == 0 || random_bits[i] == 1,
                forall|r: int| 0 <= r < self.p.len() ==> (#[trigger] self.p[r]).len() == cols,
                forall|r: int, c: int|
                    0 <= r < self.p.len() && 0 <= c < cols ==> (#[trigger] self.p[r][c] == 0
                        || self.p[r][c] == 1),
                forall|r: int|
                    0 <= r < self.p.len() ==> is_begin(
                        row_view(self.p[r]@),
                        #[trigger] self.begin[r] as int,
                    ),
                self.begin.len() == rows,
                m == self.matrix(),
                bg == self.begins(),
                bits == bits_view(random_bits@),
                st == walk_rows(m, bg, bits, row as int),
                hit == (if st.hit {
                    1int
                } else {
                    0int
                }),
                st.hit ==> 0 <= st.col < cols,
                !st.hit ==> st.col == 0,
                tracks(d as int, st.d, LIMIT / 2),
                -2 * LIMIT - cols <= d <= 2 * LIMIT + 1,
                0 <= steps <= row * cols,
                st.hit ==> steps >= 1,
                s == steps * invalid + (if st.hit {
                    st.col - invalid
                } else {
                    0
                }),
            decreases rows - row,
        {
            let too_high: bool = d > LIMIT;
            let too_low: bool = d < -LIMIT;
            let dc: i64 = select(select(d, LIMIT, too_high), -LIMIT, too_low);
            d = 2 * dc + random_bits[row];
            let ghost st0 = WalkState { d: 2 * st.d + bits[row as int], hit: st.hit, col: st.col };
            proof {
                st = st0;
                assert(m[row as int] == row_view(self.p[row as int]@));
                assert(bg[row as int] == self.begin[row as int]);
                assert(steps <= row * cols);
                assert(row * cols + cols <= rows * cols) by (nonlinear_arith)
                    requires
                        row < rows,
                        cols >= 0,
                ;
            }
            let first: usize = self.begin[row] as usize;
            let mut col: usize = first;
            let ghost base = steps;
            while col < cols
                invariant
                    first <= col <= cols,
                    row < rows,
                    rows == self.p.len(),
                    1 <= cols <= 0x1_0000_0000,
                    invalid == cols,
                    rows * (cols * cols) <= i64::MAX,
                    self.p[row as int].len() == cols,
                    forall|c: int|
                        0 <= c < cols ==> (#[trigger] self.p[row as int][c] == 0
                            || self.p[row as int][c] == 1),
                    m[row as int] == row_view(self.p[row as int]@),
                    st == walk_row(m[row as int], st0, first as int, col as int),
                    hit == (if st.hit {
                        1int
                    } else {
                        0int
                    }),
                    st.hit ==> 0 <= st.col < cols,
                    !st.hit ==> st.col == 0,
                    tracks(d as int, st.d, col - first),
                    -2 * LIMIT - (col - first) <= d <= 2 * LIMIT + 1,
                    steps == base + (col - first),
                    st.hit ==> steps >= 1,
                    0 <= base,
                    base + cols <= rows * cols,
                    s == steps * invalid + (if st.hit {
                        st.col - invalid
                    } else {
                        0
                    }),
                decreases cols - col,
            {
                let entry: i64 = self.p[row][col];
                d = d - entry;
                let enable: i64 = (d == -1) as i64;
                let pick: i64 = enable & (hit ^ 1);
                let hit_after: i64 = hit | pick;
                proof {
                    assert(pick == (if enable == 1 && hit == 0 {
                        1i64
                    } else {
                        0i64
                    }) && hit_after == (if hit == 1 || pick == 1 {
                        1i64
                    } else {
                        0i64
                    })) by (bit_vector)
                        requires
                            enable == 0 || enable == 1,
                            hit == 0 || hit == 1,
                            pick == enable & (hit ^ 1),
                            hit_after == hit | pick,
                    ;
                    assert((steps + 1) * cols <= (rows * cols) * cols) by (nonlinear_arith)
                        requires
                            steps + 1 <= rows * cols,
                            cols >= 1,
                    ;
                    assert((rows * cols) * cols == rows * (cols * cols)) by (nonlinear_arith);
                    assert((steps + 1) * invalid <= i64::MAX);
                    assert((steps + 1) * invalid == steps * invalid + invalid)
                        by (nonlinear_arith);
                    assert(steps * invalid >= 0) by (nonlinear_arith)
                        requires
                            steps >= 0,
                            invalid >= 1,
                    ;
                    st = walk_step(st, entry as int, col as int);
                    steps = steps + 1;
                }
                s = s + select(invalid, col as i64, pick == 1);
                hit = hit_after;
                col = col + 1;
            }
            row = row + 1;
            proof {
                assert(steps <= row * cols) by (nonlinear_arith)
                    requires
                        steps <= base + cols,
                        base <= (row - 1) * cols,
                ;
            }
        }
        proof {
            // the sum of the columns is the chosen column and a multiple of
            // the number of columns
            let k = if st.hit {
                steps - 1
            } else {
                steps
            };
            assert(s == invalid * k + st.col) by (nonlinear_arith)
                requires
                    s == steps * invalid + (if st.hit {
                        st.col - invalid
                    } else {
                        0
                    }),
                    k == (if st.hit {
                        steps - 1
                    } else {
                        steps
                    }),
                    !st.hit ==> st.col == 0,
            ;
            vstd::arithmetic::div_mod::lemma_mod_multiples_vanish(k, st.col, invalid as int);
            vstd::arithmetic::div_mod::lemma_small_mod(st.col as nat, invalid as nat);
            assert(s >= 0) by (nonlinear_arith)
                requires
                    s == invalid * k + st.col,
                    invalid >= 1,
                    st.col >= 0,
                    k >= 0,
            ;
        }
        let chosen: i64 = s % invalid;
        let v: i64 = chosen - (self.bound as i64) + self.center;
        let signal: i64 = 1 - 2 * sign_bit;
        assert(v * signal == (if sign_bit == 1 {
            -v
        } else {
            v as int
        })) by (nonlinear_arith)
            requires
                signal == 1 - 2 * sign_bit,
                sign_bit == 0 || sign_bit == 1,
        ;
        v * signal
    }
}

/// Bit `i` of a sequence of words, the lowest bit of each word first.
pub open spec fn word_bit(words: Seq<u64>, i: int) -> i64 {
    ((words[i / 64] >> ((i % 64) as u64)) & 1) as i64
}

/// The first `n` bits of `words`, the lowest bit of each word first.
pub fn unpack_bits(words: &Vec<u64>, n: usize) -> (bits: Vec<i64>)
    requires
        n <= 64 * words.len(),
    ensures
        bits.len() == n,
        forall|i: int| 0 <= i < n ==> #[trigger] bits[i] == word_bit(words@, i),
        forall|i: int| 0 <= i < n ==> bits[i] == 0 || bits[i] == 1,
{
    let mut bits: Vec<i64> = Vec::new();
    let mut index: usize = 0;
    let mut w: usize = 0;
    while index < n
        invariant
            index <= n <= 64 * words.len(),
            index == 64 * w || index == n,
            w <= words.len(),
            bits.len() == index,
            forall|i: int| 0 <= i < index ==> #[trigger] bits[i] == word_bit(words@, i),
            forall|i: int| 0 <= i < index ==> bits[i] == 0 || bits[i] == 1,
        decreases n - index,
    {
        let mut r: u64 = words[w];
        let mut j: usize = 0;
        proof {
            let word = words[w as int];
            assert(word == word >> 0u64) by (bit_vector);
        }
        while j < 64 && index < n
            invariant
                j <= 64,
                w < words.len(),
                index == 64 * w + j,
                index <= n,
                bits.len() == index,
                j < 64 ==> r == words[w as int] >> (j as u64),
                forall|i: int| 0 <= i < index ==> #[trigger] bits[i] == word_bit(words@, i),
                forall|i: int| 0 <= i < index ==> bits[i] == 0 || bits[i] == 1,
            decreases 64 - j,
        {
            let b: u64 = r & 1;
            proof {
                assert(b == 0 || b == 1) by (bit_vector)
                    requires
                        b == r & 1,
                ;
                assert(index as int / 64 == w && index as int % 64 == j);
                let word = words[w as int];
                let ju = j as u64;
                assert(ju < 63 ==> (word >> ju) >> 1 == word >> ((ju + 1) as u64)) by (bit_vector);
            }
            bits.push(b as i64);
            j = j + 1;
            index = index + 1;
            r = r >> 1;
        }
        w = w + 1;
    }
    bits
}

impl Sampling {
    /// Draws one sample by the Knuth-Yao walk: one fresh random bit for every
    /// row of the table, and one for the sign.
    pub fn knuth_yao(&self) -> (r: i64)
        ensures
            exists|bits: Seq<int>, negative: bool|
                {
                    &&& bits.len() == self.precision_of()
                    &&& forall|i: int| 0 <= i < bits.len() ==> bits[i] == 0 || bits[i] == 1
                    &&& 0 <= self.chosen_column(bits) <= self.bound_of()
                    &&& r == #[trigger] self.sample_of(bits, negative)
                },
            0 <= 2 * self.center_of() <= self.bound_of() ==> self.center_of() - self.bound_of()
                <= r <= self.center_of() + self.bound_of(),
    {
        let rows: usize = self.rows();
        let n_words: usize = rows / 64 + 1;
        let mut words: Vec<u64> = Vec::new();
        let mut i: usize = 0;
        while i < n_words
            invariant
                i <= n_words,
                words.len() == i,
            decreases n_words - i,
        {
            words.push(randombits_u64(64));
            i = i + 1;
        }
        let random_bits: Vec<i64> = unpack_bits(&words, rows);
        let sign_bit: i64 = randombits_i64(1);
        proof {
            assert(crate::random::low_mask(1) == 1) by (bit_vector)
                requires
                    crate::random::low_mask(1) == ((1u64 << 1u64) - 1) as u64,
            ;
        }
        let r: i64 = self.knuth_yao_with(&random_bits, sign_bit);
        proof {
            let bits = bits_view(random_bits@);
            assert(r == self.sample_of(bits, sign_bit == 1));
        }
        r
    }
}

impl Clone for Sampling {
    fn clone(&self) -> (r: Self)
        ensures
            r.matrix() == self.matrix(),
            r.begins() == self.begins(),
            r.precision_of() == self.precision_of(),
            r.bound_of() == self.bound_of(),
            r.center_of() == self.center_of(),
    {
        proof {
            use_type_invariant(self);
        }
        let mut p: Vec<Vec<i64>> = Vec::new();
        let mut r: usize = 0;
        while r < self.p.len()
            invariant
                r <= self.p.len(),
                p.len() == r,
                forall|i: int| 0 <= i < r ==> (#[trigger] p[i])@ == self.p[i]@,
            decreases self.p.len() - r,
        {
            let row: Vec<i64> = self.p[r].clone();
            p.push(row);
            r = r + 1;
        }
        let begin: Vec<i64> = self.begin.clone();
        proof {
            assert(table_view(p@) =~~= table_view(self.p@));
        }
        Sampling { p, begin, precision: self.precision, bound: self.bound, center: self.center }
    }
}

} // verus!
