use rand::rngs::StdRng;
use rand::{Rng, SeedableRng};
use ring_lwe::content::{content, primitive_part};
use ring_lwe::division::{div_rem, rem};
use ring_lwe::exact::divide;
use ring_lwe::gcd::gcd;
use ring_lwe::inverse::inv_trunc;
use ring_lwe::linear::{left_shift, right_shift, trunc};
use ring_lwe::modular::{mulbyxmod, mulmod};
use ring_lwe::pseudo::plain_pseudo_div_rem;
use ring_lwe::zzx::ZZX;
use rug::Integer;

fn random_poly(rng: &mut StdRng, max_len: usize, range: i64) -> ZZX {
    let len = rng.random_range(0..=max_len);
    ZZX::new_with_vec((0..len).map(|_| Integer::from(rng.random_range(-range..=range))).collect())
}

fn nonzero_poly(rng: &mut StdRng, max_len: usize, range: i64) -> ZZX {
    loop {
        let p = random_poly(rng, max_len, range);
        if !p.is_zero() {
            return p;
        }
    }
}

fn monic_poly(rng: &mut StdRng, degree: usize, range: i64) -> ZZX {
    let mut c: Vec<Integer> =
        (0..degree).map(|_| Integer::from(rng.random_range(-range..=range))).collect();
    c.push(Integer::from(1));
    ZZX::new_with_vec(c)
}

fn product(a: &ZZX, b: &ZZX) -> ZZX {
    let mut x = ZZX::new();
    ring_lwe::product::mul(&mut x, a, b);
    x
}

fn sum(a: &ZZX, b: &ZZX) -> ZZX {
    let mut x = ZZX::new();
    ring_lwe::linear::add(&mut x, a, b);
    x
}

fn difference(a: &ZZX, b: &ZZX) -> ZZX {
    let mut x = ZZX::new();
    ring_lwe::linear::sub(&mut x, a, b);
    x
}

fn scaled(a: &ZZX, c: &Integer) -> ZZX {
    let mut x = ZZX::new();
    ring_lwe::product::mul_with_integer(&mut x, a, c);
    x
}

fn is_in_normal_form(p: &ZZX) -> bool {
    p.deg() == -1 || p.lead_coeff() != 0
}

#[test]
fn results_are_in_normal_form() {
    let mut rng = StdRng::seed_from_u64(1);
    for _ in 0..200 {
        let a = random_poly(&mut rng, 8, 3);
        let b = random_poly(&mut rng, 8, 3);
        assert!(is_in_normal_form(&sum(&a, &b)));
        assert!(is_in_normal_form(&difference(&a, &b)));
        assert!(is_in_normal_form(&product(&a, &b)));
        assert!(is_in_normal_form(&trunc(&a, 3)));
        assert!(is_in_normal_form(&right_shift(&a, 2)));
        assert!(is_in_normal_form(&left_shift(&a, 2)));
        assert!(is_in_normal_form(&gcd(&a, &b)));
        assert!(is_in_normal_form(&primitive_part(&a)));
        assert_eq!(sum(&a, &b).is_zero(), sum(&a, &b).deg() == -1);
    }
}

#[test]
fn multiplication_is_a_ring_operation() {
    let mut rng = StdRng::seed_from_u64(2);
    for _ in 0..100 {
        let a = random_poly(&mut rng, 6, 50);
        let b = random_poly(&mut rng, 6, 50);
        let c = random_poly(&mut rng, 6, 50);
        assert_eq!(product(&a, &b), product(&b, &a));
        assert_eq!(product(&product(&a, &b), &c), product(&a, &product(&b, &c)));
        assert_eq!(product(&a, &sum(&b, &c)), sum(&product(&a, &b), &product(&a, &c)));
    }
}

#[test]
fn pseudo_division_identity_holds_for_random_polynomials() {
    let mut rng = StdRng::seed_from_u64(3);
    for _ in 0..200 {
        let a = random_poly(&mut rng, 9, 20);
        let b = nonzero_poly(&mut rng, 5, 20);
        let mut q = ZZX::new();
        let mut r = ZZX::new();
        let k = plain_pseudo_div_rem(&mut q, &mut r, &a, &b).unwrap();
        assert!(r.deg() < b.deg());
        assert!(k as i64 <= (a.deg() - b.deg() + 1).max(0));
        let scale = Integer::from(rug::ops::Pow::pow(b.lead_coeff(), k as u32));
        assert_eq!(scaled(&a, &scale), sum(&product(&q, &b), &r));
    }
}

#[test]
fn division_undoes_multiplication() {
    let mut rng = StdRng::seed_from_u64(4);
    for _ in 0..200 {
        let q = random_poly(&mut rng, 7, 30);
        let b = nonzero_poly(&mut rng, 7, 30);
        let a = product(&q, &b);
        let mut found = ZZX::new();
        assert!(divide(&mut found, &a, &b));
        assert_eq!(found, q);
        let mut quotient = ZZX::new();
        let mut rest = ZZX::new();
        assert_eq!(div_rem(&mut quotient, &mut rest, &a, &b), Ok(()));
        assert_eq!(quotient, q);
        assert!(rest.is_zero());
    }
}

#[test]
fn division_by_a_monic_polynomial_always_exists() {
    let mut rng = StdRng::seed_from_u64(5);
    for _ in 0..200 {
        let a = random_poly(&mut rng, 10, 30);
        let degree = rng.random_range(1..6);
        let f = monic_poly(&mut rng, degree, 30);
        let mut q = ZZX::new();
        let mut r = ZZX::new();
        assert_eq!(div_rem(&mut q, &mut r, &a, &f), Ok(()));
        assert!(r.deg() < f.deg());
        assert_eq!(a, sum(&product(&q, &f), &r));
        let mut r2 = ZZX::new();
        assert_eq!(rem(&mut r2, &a, &f), Ok(()));
        assert_eq!(r2, r);
    }
}

#[test]
fn product_modulo_f_is_the_remainder_of_the_product() {
    let mut rng = StdRng::seed_from_u64(6);
    for _ in 0..100 {
        let degree = rng.random_range(1..7);
        let f = monic_poly(&mut rng, degree, 9);
        let a = random_poly(&mut rng, degree, 9);
        let b = random_poly(&mut rng, degree, 9);
        let x = mulmod(&a, &b, &f).unwrap();
        let mut r = ZZX::new();
        assert_eq!(rem(&mut r, &product(&a, &b), &f), Ok(()));
        assert_eq!(x, r);
        let mut shifted = ZZX::new();
        assert_eq!(rem(&mut shifted, &left_shift(&a, 1), &f), Ok(()));
        assert_eq!(mulbyxmod(&a, &f).unwrap(), shifted);
    }
}

#[test]
fn common_divisor_divides_both() {
    let mut rng = StdRng::seed_from_u64(7);
    for _ in 0..100 {
        let g = nonzero_poly(&mut rng, 4, 5);
        let a = product(&g, &nonzero_poly(&mut rng, 4, 5));
        let b = product(&g, &nonzero_poly(&mut rng, 4, 5));
        let d = gcd(&a, &b);
        assert!(d.lead_coeff() > 0);
        let mut q = ZZX::new();
        assert!(divide(&mut q, &a, &d));
        assert!(divide(&mut q, &b, &d));
        // the common factor divides the greatest common divisor
        assert!(divide(&mut q, &d, &g));
        assert_eq!(content(&d), Integer::from(content(&a).gcd(&content(&b))));
    }
}

#[test]
fn inverse_is_an_inverse_for_random_polynomials() {
    let mut rng = StdRng::seed_from_u64(8);
    for _ in 0..100 {
        let mut a = random_poly(&mut rng, 10, 9);
        let unit = if rng.random_range(0..2) == 0 { 1 } else { -1 };
        a.set_coeff(0, Some(Integer::from(unit)));
        let e = rng.random_range(1..40);
        let g = inv_trunc(&a, e).unwrap();
        assert!(g.deg() < e);
        assert!(trunc(&product(&a, &g), e).is_one());
    }
}
