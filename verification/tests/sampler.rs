use ring_lwe::sampling::{binary_expansion, select, unpack_bits, Sampling};
use rug::Integer;

/// The probabilities of the offsets `0..=bound`, scaled by `2^precision`: the
/// Gaussian density at every offset.
fn scaled_probabilities(precision: u32, bound: usize, sigma: f64) -> Vec<Integer> {
    let norm = 1.0 / (sigma * (2.0 * std::f64::consts::PI).sqrt());
    let scale = 2f64.powi(precision as i32);
    (0..=bound)
        .map(|x| {
            let t = x as f64 / sigma;
            let p = norm * (-(t * t) / 2.0).exp();
            Integer::from_f64((p * scale).floor()).unwrap()
        })
        .collect()
}

fn gaussian_sampler(precision: u32) -> Sampling {
    let bound = (13.2f64 * 2.0).round() as usize;
    Sampling::new(precision, bound, 0, &scaled_probabilities(precision, bound, 2.0))
}

#[test]
fn select_picks_by_the_bit() {
    assert_eq!(select(3, 4, true), 4);
    assert_eq!(select(3, 4, false), 3);
    assert_eq!(select(-1, i64::MAX, true), i64::MAX);
    assert_eq!(select(i64::MIN, 0, false), i64::MIN);
}

#[test]
fn table_holds_the_binary_digits() {
    // offsets 0, 1, 2 with the probabilities 5/4, 1/8, 3/16 at precision 4;
    // the offset zero enters the table with 5/8
    let probs = vec![Integer::from(20), Integer::from(2), Integer::from(3)];
    let s = Sampling::new(4, 2, 0, &probs);
    assert_eq!(s.rows(), 4);
    assert_eq!(s.columns(), 3);
    assert_eq!(s.bound(), 2);
    assert_eq!(s.center(), 0);
    // column c holds offset 2 - c: 3 = 0011, 2 = 0010, 10 = 1010
    let expected = [[0, 0, 1], [0, 0, 0], [1, 1, 1], [1, 0, 0]];
    for r in 0..4 {
        for c in 0..3 {
            assert_eq!(s.bit(r, c), expected[r][c], "row {} column {}", r, c);
        }
    }
}

#[test]
fn scan_starts_at_the_first_one() {
    let probs = vec![Integer::from(20), Integer::from(2), Integer::from(3)];
    let s = Sampling::new(4, 2, 0, &probs);
    assert_eq!(s.begin_of(0), 2);
    assert_eq!(s.begin_of(1), 2);
    assert_eq!(s.begin_of(2), 0);
    assert_eq!(s.begin_of(3), 0);
}

#[test]
fn probability_of_one_or_more_is_expanded_greedily() {
    // half of 38 at precision 4: 19 >= 8, 11 >= 4, 7 >= 2, 5 >= 1
    let s = Sampling::new(4, 0, 0, &vec![Integer::from(38)]);
    for r in 0..4 {
        assert_eq!(s.bit(r, 0), 1);
    }
    let z = Sampling::new(3, 0, 0, &vec![Integer::from(-5)]);
    for r in 0..3 {
        assert_eq!(z.bit(r, 0), 0);
    }
}

#[test]
fn probability_of_the_offset_zero_is_halved() {
    // 7 and 6 at precision 3: the offset zero enters with 3 = 011, the
    // offset one with 6 = 110
    let s = Sampling::new(3, 1, 0, &vec![Integer::from(7), Integer::from(6)]);
    let expected = [[1, 0], [1, 1], [0, 1]];
    for r in 0..3 {
        for c in 0..2 {
            assert_eq!(s.bit(r, c), expected[r][c], "row {} column {}", r, c);
        }
    }
    // halving rounds towards zero
    let one = Sampling::new(2, 0, 0, &vec![Integer::from(1)]);
    assert_eq!(one.bit(0, 0), 0);
    assert_eq!(one.bit(1, 0), 0);
    let three = Sampling::new(2, 0, 0, &vec![Integer::from(3)]);
    assert_eq!(three.bit(0, 0), 0);
    assert_eq!(three.bit(1, 0), 1);
}

#[test]
fn one_column_is_expanded_until_nothing_is_left() {
    // 10 = 1010 at precision 4: after the third digit nothing is left
    let mut table = vec![vec![7i64; 3]; 5];
    binary_expansion(&mut table, Integer::from(10), 4, 1);
    assert_eq!(table[0], vec![7, 1, 7]);
    assert_eq!(table[1], vec![7, 0, 7]);
    assert_eq!(table[2], vec![7, 1, 7]);
    assert_eq!(table[3], vec![7, 7, 7]);
    assert_eq!(table[4], vec![7, 7, 7]);
    // 5 = 0101: every row is written
    binary_expansion(&mut table, Integer::from(5), 4, 0);
    assert_eq!(table[0], vec![0, 1, 7]);
    assert_eq!(table[1], vec![1, 0, 7]);
    assert_eq!(table[2], vec![0, 1, 7]);
    assert_eq!(table[3], vec![1, 7, 7]);
    // nothing to expand
    binary_expansion(&mut table, Integer::from(0), 4, 2);
    assert_eq!(table[0], vec![0, 1, 7]);
}

#[test]
fn walk_chooses_the_column_where_the_distance_runs_out() {
    // offsets 0, 1 with the probabilities 1 and 1/4 at precision 2; with the
    // offset zero halved, row 0 is [0, 1] and row 1 is [1, 0]
    let s = Sampling::new(2, 1, 0, &vec![Integer::from(4), Integer::from(1)]);
    assert_eq!(s.bit(0, 1), 1);
    assert_eq!(s.bit(1, 0), 1);
    // first bit 0: the distance 0 meets the one in column 1, offset 0
    assert_eq!(s.knuth_yao_with(&vec![0, 0], 0), 0);
    assert_eq!(s.knuth_yao_with(&vec![0, 1], 0), 0);
    assert_eq!(s.knuth_yao_with(&vec![0, 1], 1), 0);
    // bits 1, 0: row 0 leaves the distance 0, row 1 meets the one in column 0
    assert_eq!(s.knuth_yao_with(&vec![1, 0], 0), -1);
    assert_eq!(s.knuth_yao_with(&vec![1, 0], 1), 1);
    // bits 1, 1: no column is met, the sample falls back to column 0
    assert_eq!(s.knuth_yao_with(&vec![1, 1], 0), -1);
    assert_eq!(s.knuth_yao_with(&vec![1, 1], 1), 1);
}

#[test]
fn walk_adds_the_centre_before_the_sign() {
    let s = Sampling::new(2, 1, 5, &vec![Integer::from(4), Integer::from(1)]);
    assert_eq!(s.knuth_yao_with(&vec![0, 0], 0), 5);
    assert_eq!(s.knuth_yao_with(&vec![0, 0], 1), -5);
    assert_eq!(s.knuth_yao_with(&vec![1, 0], 0), 4);
    assert_eq!(s.knuth_yao_with(&vec![1, 0], 1), -4);
}

#[test]
fn walk_keeps_the_first_column_chosen() {
    // a table of ones: the first entry visited brings the distance to -1
    let s = Sampling::new(3, 2, 0, &vec![Integer::from(14), Integer::from(7), Integer::from(7)]);
    assert_eq!(s.knuth_yao_with(&vec![0, 0, 0], 0), -2);
    assert_eq!(s.knuth_yao_with(&vec![0, 1, 1], 1), 2);
    // first bit 1: column 1 is met in row 0
    assert_eq!(s.knuth_yao_with(&vec![1, 0, 0], 0), -1);
}

#[test]
fn walk_through_an_empty_table_falls_back() {
    let s = Sampling::new(200, 3, 0, &vec![Integer::from(0); 4]);
    let bits = vec![1i64; 200];
    assert_eq!(s.knuth_yao_with(&bits, 0), -3);
    assert_eq!(s.knuth_yao_with(&bits, 1), 3);
    assert_eq!(s.knuth_yao_with(&vec![0i64; 200], 0), -3);
}

#[test]
fn walk_through_a_deep_table_does_not_overflow() {
    // the only one sits in row 150: the distance has to be 0 there
    let p = Integer::from(1) << 49u32;
    let s = Sampling::new(200, 1, 0, &vec![Integer::from(0), p]);
    assert_eq!(s.bit(150, 0), 1);
    let zeros = vec![0i64; 200];
    assert_eq!(s.knuth_yao_with(&zeros, 0), -1);
    let mut late = vec![0i64; 200];
    late[151] = 1;
    assert_eq!(s.knuth_yao_with(&late, 0), -1);
    let mut early = vec![0i64; 200];
    early[3] = 1;
    // no column is met: the fallback is column 0 as well
    assert_eq!(s.knuth_yao_with(&early, 1), 1);
}

#[test]
fn bits_are_unpacked_lowest_first() {
    let words = vec![0b1011u64, u64::MAX, 1u64 << 63];
    assert_eq!(unpack_bits(&words, 6), vec![1, 1, 0, 1, 0, 0]);
    let all = unpack_bits(&words, 192);
    assert_eq!(all.len(), 192);
    assert_eq!(all[64], 1);
    assert_eq!(all[127], 1);
    assert_eq!(all[128], 0);
    assert_eq!(all[191], 1);
    assert_eq!(unpack_bits(&words, 0), Vec::<i64>::new());
}

#[test]
fn gaussian_table_has_the_expected_shape() {
    let s = gaussian_sampler(64);
    assert_eq!(s.rows(), 64);
    assert_eq!(s.columns(), 27);
    // every probability is below 1/4: the first two rows are empty
    for c in 0..27 {
        assert_eq!(s.bit(0, c), 0);
        assert_eq!(s.bit(1, c), 0);
    }
    assert_eq!(s.begin_of(0), 26);
    // the probability of offset 1 is 0.176...: its first digit is in row 2
    assert_eq!(s.bit(2, 25), 1);
    assert_eq!(s.begin_of(2), 25);
}

#[test]
fn samples_stay_within_the_bound() {
    let s = gaussian_sampler(64);
    for _ in 0..20000 {
        let x = s.knuth_yao();
        assert!((-26..=26).contains(&x));
    }
}

#[test]
fn samples_follow_the_gaussian() {
    let s = gaussian_sampler(64);
    let draws = 100_000;
    let mut histogram = vec![0u64; 53];
    let mut kept = 0u64;
    let mut total: i64 = 0;
    for _ in 0..draws {
        let x = s.knuth_yao();
        assert!((-26..=26).contains(&x));
        // a walk that meets no column gives the bound itself
        if x > -26 && x < 26 {
            histogram[(x + 26) as usize] += 1;
            kept += 1;
            total += x;
        }
    }
    assert!(kept > draws / 4);
    let mean = total as f64 / kept as f64;
    assert!(mean.abs() < 0.1, "mean {}", mean);
    // compare with the density, lumping the thin tails together
    let density = |x: i64| (-(x as f64 * x as f64) / 8.0).exp();
    let norm: f64 = (-25..=25).map(density).sum();
    let mut chi = 0.0;
    let mut tail_seen = 0.0;
    let mut tail_expected = 0.0;
    let mut cells = 0;
    for x in -25i64..=25 {
        let expected = kept as f64 * density(x) / norm;
        let seen = histogram[(x + 26) as usize] as f64;
        if x.abs() <= 6 {
            chi += (seen - expected) * (seen - expected) / expected;
            cells += 1;
        } else {
            tail_seen += seen;
            tail_expected += expected;
        }
    }
    chi += (tail_seen - tail_expected) * (tail_seen - tail_expected) / tail_expected;
    cells += 1;
    assert_eq!(cells, 14);
    // 13 degrees of freedom: beyond 60 the chance is below one in ten million
    assert!(chi < 60.0, "chi squared {}", chi);
}
