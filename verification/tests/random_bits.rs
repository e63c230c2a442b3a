use ring_lwe::random::{
    floor_log2, low_bits_i64, low_bits_u64, poly_from_draws, random_message, random_poly,
    randombits_i64, randombits_u64, P, Q,
};
use rug::Integer;

#[test]
fn low_bits_of_a_word() {
    assert_eq!(low_bits_u64(0xffff_ffff_ffff_ffff, 1), 1);
    assert_eq!(low_bits_u64(0xffff_ffff_ffff_fffe, 1), 0);
    assert_eq!(low_bits_u64(0x1234_5678_9abc_def0, 8), 0xf0);
    assert_eq!(low_bits_u64(0x1234_5678_9abc_def0, 63), 0x1234_5678_9abc_def0);
    assert_eq!(low_bits_u64(0xf234_5678_9abc_def0, 63), 0x7234_5678_9abc_def0);
    assert_eq!(low_bits_u64(0xf234_5678_9abc_def0, 64), 0xf234_5678_9abc_def0);
}

#[test]
fn low_bits_of_a_word_as_a_signed_number() {
    assert_eq!(low_bits_i64(0xffff_ffff_ffff_ffff, 1), 1);
    assert_eq!(low_bits_i64(0xffff_ffff_ffff_ffff, 4), 15);
    assert_eq!(low_bits_i64(0xffff_ffff_ffff_ffff, 63), i64::MAX);
    assert_eq!(low_bits_i64(0xffff_ffff_ffff_ffff, 64), i64::MAX);
    assert_eq!(low_bits_i64(0x8000_0000_0000_0001, 64), 1);
}

#[test]
fn random_bits_stay_below_the_width() {
    for bits in 1..=64u8 {
        for _ in 0..50 {
            let u = randombits_u64(bits);
            let i = randombits_i64(bits);
            if bits < 64 {
                assert!(u < 1u64 << bits);
                assert!((i as u64) < 1u64 << bits);
            }
            assert!(i >= 0);
        }
    }
}

#[test]
fn random_bits_are_not_constant() {
    let first = randombits_u64(64);
    let mut differs = false;
    for _ in 0..20 {
        if randombits_u64(64) != first {
            differs = true;
        }
    }
    assert!(differs);
    let mut seen = [false; 2];
    for _ in 0..200 {
        seen[randombits_i64(1) as usize] = true;
    }
    assert!(seen[0] && seen[1]);
}

#[test]
fn random_message_has_one_bit_for_every_coefficient() {
    for _ in 0..20 {
        let m = random_message();
        assert_eq!(m.len(), P);
        assert!(m.iter().all(|&b| b == 0 || b == 1));
    }
}

#[test]
fn random_ring_element_has_small_coefficients() {
    for _ in 0..20 {
        let a = random_poly();
        assert!(a.deg() < P as i64);
        for i in 0..P {
            let c = a.coeff(i).to_i64().unwrap();
            assert!((0..64).contains(&c));
        }
    }
}

#[test]
fn whole_part_of_the_binary_logarithm() {
    assert_eq!(floor_log2(1), 0);
    assert_eq!(floor_log2(2), 1);
    assert_eq!(floor_log2(3), 1);
    assert_eq!(floor_log2(4), 2);
    assert_eq!(floor_log2(Q as u64), 27);
    assert_eq!(floor_log2(u64::MAX), 63);
}

#[test]
fn draws_become_the_coefficients() {
    let a = poly_from_draws(&vec![3, 0, 63, 1]);
    assert_eq!(a.deg(), 3);
    assert_eq!(a.coeff(0), Integer::from(3));
    assert_eq!(a.coeff(1), Integer::from(0));
    assert_eq!(a.coeff(2), Integer::from(63));
    assert_eq!(a.coeff(3), Integer::from(1));
    let b = poly_from_draws(&vec![5, 0, 0]);
    assert_eq!(b.deg(), 0);
    assert_eq!(b.coeff(0), Integer::from(5));
    assert!(poly_from_draws(&vec![0, 0]).is_zero());
    assert!(poly_from_draws(&vec![]).is_zero());
    let big = poly_from_draws(&vec![u64::MAX]);
    assert_eq!(big.coeff(0), Integer::from(u64::MAX));
}

#[test]
fn random_ring_elements_differ() {
    let first = random_poly();
    let mut differs = false;
    for _ in 0..20 {
        if random_poly() != first {
            differs = true;
        }
    }
    assert!(differs);
}
