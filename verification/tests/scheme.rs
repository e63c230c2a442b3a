use ring_lwe::encryption_scheme::{coefficient_mod, EncryptionScheme};
use ring_lwe::error::ArithError;
use ring_lwe::random::{random_message, random_poly, P, Q};
use ring_lwe::sampling::Sampling;
use ring_lwe::zzx::ZZX;
use rug::Integer;

fn poly(c: &[i64]) -> ZZX {
    ZZX::new_with_vec(c.iter().map(|&x| Integer::from(x)).collect())
}

fn coeffs(p: &ZZX) -> Vec<i64> {
    (0..(p.deg() + 1) as usize).map(|i| p.coeff(i).to_i64().unwrap()).collect()
}

fn gaussian_sampler(precision: u32) -> Sampling {
    let sigma = 2.0f64;
    let bound = (13.2f64 * sigma).round() as usize;
    let norm = 1.0 / (sigma * (2.0 * std::f64::consts::PI).sqrt());
    let scale = 2f64.powi(precision as i32);
    let probs: Vec<Integer> = (0..=bound)
        .map(|x| {
            let t = x as f64 / sigma;
            let p = norm * (-(t * t) / 2.0).exp();
            Integer::from_f64((p * scale).floor()).unwrap()
        })
        .collect();
    Sampling::new(precision, bound, 0, &probs)
}

fn small_scheme() -> EncryptionScheme {
    EncryptionScheme::new(4, 17, gaussian_sampler(64))
}

#[test]
fn representative_modulo_n() {
    assert_eq!(coefficient_mod(&Integer::from(7), &Integer::from(5)), Integer::from(2));
    assert_eq!(coefficient_mod(&Integer::from(-7), &Integer::from(5)), Integer::from(3));
    assert_eq!(coefficient_mod(&Integer::from(-5), &Integer::from(5)), Integer::from(0));
    assert_eq!(coefficient_mod(&Integer::from(0), &Integer::from(5)), Integer::from(0));
    assert_eq!(coefficient_mod(&Integer::from(4), &Integer::from(5)), Integer::from(4));
    assert_eq!(coefficient_mod(&Integer::from(-1), &Integer::from(1)), Integer::from(0));
}

#[test]
fn coefficients_are_reduced_into_the_range() {
    let es = small_scheme();
    let mut a = poly(&[20, -1, 17, -35]);
    es.reduce(&mut a);
    assert_eq!(coeffs(&a), vec![3, 16, 0, 16]);
    let mut b = poly(&[17, 34]);
    es.reduce(&mut b);
    assert!(b.is_zero());
    let mut c = poly(&[18, 0, 0, 0, 40]);
    es.reduce(&mut c);
    assert_eq!(coeffs(&c), vec![1, 0, 0, 0, 40]);
}

#[test]
fn noise_lies_strictly_inside_the_bounds() {
    let es = EncryptionScheme::new(14, 179424673, gaussian_sampler(64));
    for _ in 0..50 {
        let mut a = ZZX::new();
        assert_eq!(es.poly_sampling(&mut a), Ok(()));
        assert!(a.deg() < 14);
        for i in 0..14 {
            let c = a.coeff(i).to_i64().unwrap();
            assert!(c > -26 && c < 26);
        }
    }
}

#[test]
fn sampler_that_never_accepts_is_given_up() {
    // an empty table: every walk falls back to the bound
    let empty = Sampling::new(8, 2, 0, &vec![Integer::from(0); 3]);
    let es = EncryptionScheme::new(4, 17, empty);
    let mut a = poly(&[1, 2]);
    assert_eq!(es.poly_sampling(&mut a), Err(ArithError::SamplerExhausted));
    assert_eq!(coeffs(&a), vec![1, 2]);
}

#[test]
fn message_is_encoded_bit_by_bit() {
    let es = small_scheme();
    let mut m = ZZX::new();
    es.encode(&mut m, &[1, 0, 1, 1]);
    assert_eq!(coeffs(&m), vec![8, 0, 8, 8]);
    es.encode(&mut m, &[0, 1, 0, 0, 1, 1]);
    assert_eq!(coeffs(&m), vec![0, 8]);
    es.encode(&mut m, &[0, 0, 0, 0]);
    assert!(m.is_zero());
}

#[test]
fn coefficients_are_decoded_by_thresholds() {
    let es = small_scheme();
    // (17 - 1) / 4 = 4: one from 4 up to 11
    let mut bits = vec![9; 6];
    es.decode(&mut bits, &poly(&[3, 4, 11, 12]));
    assert_eq!(bits, vec![0, 1, 1, 0, 9, 9]);
    let mut short = vec![9; 2];
    es.decode(&mut short, &poly(&[8, 0, 8, 8]));
    assert_eq!(short, vec![1, 0]);
    let mut more = vec![9; 4];
    es.decode(&mut more, &poly(&[5]));
    assert_eq!(more, vec![1, 0, 0, 0]);
}

#[test]
fn public_key_from_given_noise() {
    let es = small_scheme();
    let a = poly(&[1, 2, 0, 1]);
    let r1 = poly(&[1, -1, 2, 0]);
    let r2 = poly(&[0, 1, 0, -1]);
    // a * r2 = x + 2x^2 - x^3 - x^4 - x^6 = 1 + x + 3x^2 - x^3 modulo x^4 + 1
    // r1 - a * r2 = -2x - x^2 + x^3
    let p1 = es.key_generation_with(&a, &r1, &r2).unwrap();
    assert_eq!(coeffs(&p1), vec![0, 15, 16, 1]);
}

#[test]
fn ciphertext_from_given_noise() {
    let es = small_scheme();
    let a = poly(&[1, 2, 0, 1]);
    let p1 = poly(&[16, 15, 16]);
    let m = poly(&[8, 0, 8]);
    let e1 = poly(&[1, 0, -1]);
    let e2 = poly(&[0, 1]);
    let e3 = poly(&[2, 0, 0, -1]);
    // a * e1 = 1 + 2x - x^2 - x^3 - x^5 = 1 + 3x - x^2 - x^3 modulo x^4 + 1
    // p1 * e1 = 16 + 15x - 15x^3 - 16x^4 = 32 + 15x - 15x^3
    let (c1, c2) = es.encryption_with(&a, &p1, &m, &e1, &e2, &e3).unwrap();
    assert_eq!(coeffs(&c1), vec![1, 4, 16, 16]);
    assert_eq!(coeffs(&c2), vec![8, 15, 8, 1]);
}

#[test]
fn plaintext_from_a_ciphertext() {
    let es = small_scheme();
    let c1 = poly(&[1, 4, 16, 16]);
    let c2 = poly(&[8, 15, 8, 1]);
    let r2 = poly(&[0, 1, 0, -1]);
    // c1 * r2 = x + 4x^2 + 15x^3 + 12x^4 - 16x^5 - 16x^6 = -12 + 17x + 20x^2 + 15x^3
    let mut m = ZZX::new();
    assert_eq!(es.decryption(&mut m, &c1, &c2, &r2), Ok(()));
    assert_eq!(coeffs(&m), vec![14, 2, 12, 14]);
}

#[test]
fn ring_elements_of_too_high_a_degree_are_rejected() {
    let es = small_scheme();
    let long = poly(&[1, 2, 3, 4, 5]);
    let short = poly(&[1, 2]);
    assert_eq!(es.key_generation_with(&long, &short, &short).err(), Some(ArithError::BadArguments));
    assert_eq!(es.key_generation_with(&short, &short, &long).err(), Some(ArithError::BadArguments));
    assert_eq!(
        es.encryption_with(&short, &short, &short, &long, &short, &short).err(),
        Some(ArithError::BadArguments)
    );
    let mut m = poly(&[5]);
    assert_eq!(es.decryption(&mut m, &long, &short, &short), Err(ArithError::BadArguments));
    assert_eq!(coeffs(&m), vec![5]);
    let mut r2 = ZZX::new();
    let mut p1 = ZZX::new();
    assert_eq!(es.key_generation(&long, &mut r2, &mut p1), Err(ArithError::BadArguments));
    let mut c1 = ZZX::new();
    let mut c2 = ZZX::new();
    assert_eq!(
        es.encryption(&mut c1, &mut c2, &long, &short, &short),
        Err(ArithError::BadArguments)
    );
}

#[test]
fn message_survives_encryption_and_decryption() {
    let es = EncryptionScheme::new(P as i32, Q as i32, gaussian_sampler(64));
    let trials = 200;
    let mut failed = 0;
    for _ in 0..trials {
        let a = random_poly();
        let mut r2 = ZZX::new();
        let mut p1 = ZZX::new();
        assert_eq!(es.key_generation(&a, &mut r2, &mut p1), Ok(()));
        let m = random_message();
        let mut encoded = ZZX::new();
        es.encode(&mut encoded, &m);
        let mut c1 = ZZX::new();
        let mut c2 = ZZX::new();
        assert_eq!(es.encryption(&mut c1, &mut c2, &a, &p1, &encoded), Ok(()));
        for i in 0..P {
            assert!(c1.coeff(i) >= 0 && c1.coeff(i) < Q as u64);
            assert!(c2.coeff(i) >= 0 && c2.coeff(i) < Q as u64);
        }
        let mut plain = ZZX::new();
        assert_eq!(es.decryption(&mut plain, &c1, &c2, &r2), Ok(()));
        let mut decoded = vec![0; P];
        es.decode(&mut decoded, &plain);
        if decoded != m {
            failed += 1;
        }
    }
    // the noise is far below a quarter of the modulus: no trial is expected
    // to fail, and one in ten is the most that is tolerated
    assert!(failed * 10 <= trials, "{} of {} trials failed", failed, trials);
}

#[test]
fn fixed_message_survives_encryption_and_decryption() {
    let es = EncryptionScheme::new(14, 179424673, gaussian_sampler(256));
    let message = vec![1, 0, 1, 1, 0, 0, 1, 0, 1, 1, 1, 0, 0, 1];
    let a = random_poly();
    let mut r2 = ZZX::new();
    let mut p1 = ZZX::new();
    assert_eq!(es.key_generation(&a, &mut r2, &mut p1), Ok(()));
    let mut encoded = ZZX::new();
    es.encode(&mut encoded, &message);
    let mut failed = 0;
    for _ in 0..50 {
        let mut c1 = ZZX::new();
        let mut c2 = ZZX::new();
        assert_eq!(es.encryption(&mut c1, &mut c2, &a, &p1, &encoded), Ok(()));
        let mut plain = ZZX::new();
        assert_eq!(es.decryption(&mut plain, &c1, &c2, &r2), Ok(()));
        let mut decoded = vec![0; 14];
        es.decode(&mut decoded, &plain);
        if decoded != message {
            failed += 1;
        }
    }
    assert!(failed <= 5, "{} of 50 trials failed", failed);
}

#[test]
fn samples_at_or_beyond_the_bounds_are_not_kept() {
    let es = small_scheme();
    assert!(es.keeps(0));
    assert!(es.keeps(25));
    assert!(es.keeps(-25));
    assert!(!es.keeps(26));
    assert!(!es.keeps(-26));
    assert!(!es.keeps(i64::MAX));
    assert!(!es.keeps(i64::MIN));
}

#[test]
fn noise_is_the_first_samples_that_are_kept() {
    let es = small_scheme();
    let a = es.poly_sampling_with(&vec![1, 26, -3, 0, -26, 25, 7]).unwrap();
    assert_eq!(coeffs(&a), vec![1, -3, 0, 25]);
    let b = es.poly_sampling_with(&vec![5, 0, 0, 0]).unwrap();
    assert_eq!(coeffs(&b), vec![5]);
    let c = es.poly_sampling_with(&vec![26, 26, 0, 0, 0, 0, 9]).unwrap();
    assert!(c.is_zero());
}

#[test]
fn samples_that_run_out_give_no_noise() {
    let es = small_scheme();
    assert_eq!(es.poly_sampling_with(&vec![1, 2, 3]).err(), Some(ArithError::SamplerExhausted));
    assert_eq!(es.poly_sampling_with(&vec![]).err(), Some(ArithError::SamplerExhausted));
    assert_eq!(
        es.poly_sampling_with(&vec![1, 2, 3, 26, -26]).err(),
        Some(ArithError::SamplerExhausted)
    );
}

#[test]
fn too_many_samples_thrown_away_in_a_row_give_no_noise() {
    let es = small_scheme();
    let mut samples = vec![1, 2];
    samples.extend(std::iter::repeat(26).take(65536));
    samples.extend([3, 4]);
    assert_eq!(es.poly_sampling_with(&samples).err(), Some(ArithError::SamplerExhausted));
    // one fewer, and the run ends in time; each sample kept starts a new run
    let mut patient = vec![1];
    patient.extend(std::iter::repeat(-26).take(65535));
    patient.push(2);
    patient.extend(std::iter::repeat(26).take(65535));
    patient.extend([3, 4]);
    let a = es.poly_sampling_with(&patient).unwrap();
    assert_eq!(coeffs(&a), vec![1, 2, 3, 4]);
}

#[test]
fn bits_come_back_without_noise() {
    let es = small_scheme();
    for m in [[0, 0, 0, 0], [1, 0, 1, 1], [1, 1, 1, 1], [0, 1, 0, 0]] {
        let mut encoded = ZZX::new();
        es.encode(&mut encoded, &m);
        let mut decoded = vec![9; 4];
        es.decode(&mut decoded, &encoded);
        assert_eq!(decoded, m.to_vec());
    }
    // with the modulus seven a set bit is encoded as 3 and decoded as 0
    let odd = EncryptionScheme::new(2, 7, gaussian_sampler(8));
    let mut encoded = ZZX::new();
    odd.encode(&mut encoded, &[1, 1]);
    assert_eq!(coeffs(&encoded), vec![3, 3]);
    let mut decoded = vec![9; 2];
    odd.decode(&mut decoded, &encoded);
    assert_eq!(decoded, vec![0, 0]);
}
