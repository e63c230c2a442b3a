use ring_lwe::error::ArithError;
use ring_lwe::modular::{mulbyxmod, mulmod, sqrmod};
use ring_lwe::zzx::ZZX;
use rug::Integer;

fn poly(c: &[i64]) -> ZZX {
    ZZX::new_with_vec(c.iter().map(|&x| Integer::from(x)).collect())
}

fn coeffs(p: &ZZX) -> Vec<i64> {
    (0..(p.deg() + 1) as usize).map(|i| p.coeff(i).to_i64().unwrap()).collect()
}

#[test]
fn product_modulo_x_squared_plus_one() {
    // (1 + 2x) * (3 + 4x) = 3 + 10x + 8x^2 = -5 + 10x modulo x^2 + 1
    let f = poly(&[1, 0, 1]);
    let x = mulmod(&poly(&[1, 2]), &poly(&[3, 4]), &f).unwrap();
    assert_eq!(coeffs(&x), vec![-5, 10]);
}

#[test]
fn product_modulo_a_general_monic_polynomial() {
    // x^2 * x^2 = x^4 = x * x^3 = x * (2x + 1) = 2x^2 + x modulo x^3 - 2x - 1
    let f = poly(&[-1, -2, 0, 1]);
    let x = mulmod(&poly(&[0, 0, 1]), &poly(&[0, 0, 1]), &f).unwrap();
    assert_eq!(coeffs(&x), vec![0, 1, 2]);
    let y = sqrmod(&poly(&[0, 0, 1]), &f).unwrap();
    assert_eq!(coeffs(&y), vec![0, 1, 2]);
}

#[test]
fn product_with_zero_modulo_f_is_zero() {
    let f = poly(&[1, 0, 1]);
    assert!(mulmod(&ZZX::new(), &poly(&[3, 4]), &f).unwrap().is_zero());
    assert!(sqrmod(&ZZX::new(), &f).unwrap().is_zero());
}

#[test]
fn square_modulo_f_agrees_with_product() {
    let f = poly(&[1, 0, 0, 0, 1]);
    let a = poly(&[3, -1, 4, 1]);
    let s = sqrmod(&a, &f).unwrap();
    let p = mulmod(&a, &poly(&[3, -1, 4, 1]), &f).unwrap();
    assert!(s.equals(&p));
    // (3 - x + 4x^2 + x^3)^2 modulo x^4 + 1
    assert_eq!(coeffs(&s), vec![-5, -14, 24, -2]);
}

#[test]
fn modulus_that_is_not_monic_is_rejected() {
    let f = poly(&[1, 0, 2]);
    assert_eq!(mulmod(&poly(&[1, 2]), &poly(&[3, 4]), &f).err(), Some(ArithError::BadArguments));
    assert_eq!(sqrmod(&poly(&[1, 2]), &f).err(), Some(ArithError::BadArguments));
    assert_eq!(mulbyxmod(&poly(&[1, 2]), &f).err(), Some(ArithError::BadArguments));
    let g = poly(&[1, 0, -1]);
    assert_eq!(mulmod(&poly(&[1, 2]), &poly(&[3, 4]), &g).err(), Some(ArithError::BadArguments));
}

#[test]
fn operand_of_the_degree_of_the_modulus_is_rejected() {
    let f = poly(&[1, 0, 1]);
    assert_eq!(
        mulmod(&poly(&[1, 2, 3]), &poly(&[3, 4]), &f).err(),
        Some(ArithError::BadArguments)
    );
    assert_eq!(
        mulmod(&poly(&[3, 4]), &poly(&[1, 2, 3]), &f).err(),
        Some(ArithError::BadArguments)
    );
    assert_eq!(sqrmod(&poly(&[1, 2, 3]), &f).err(), Some(ArithError::BadArguments));
    assert_eq!(mulbyxmod(&poly(&[1, 2, 3]), &f).err(), Some(ArithError::BadArguments));
    assert_eq!(
        mulmod(&poly(&[1, 2, 3, 4]), &poly(&[3, 4]), &f).err(),
        Some(ArithError::BadArguments)
    );
}

#[test]
fn constant_or_zero_modulus_is_rejected() {
    assert_eq!(
        mulmod(&ZZX::new(), &ZZX::new(), &poly(&[1])).err(),
        Some(ArithError::BadArguments)
    );
    assert_eq!(
        mulmod(&ZZX::new(), &ZZX::new(), &ZZX::new()).err(),
        Some(ArithError::BadArguments)
    );
    assert_eq!(sqrmod(&ZZX::new(), &poly(&[1])).err(), Some(ArithError::BadArguments));
    assert_eq!(mulbyxmod(&ZZX::new(), &poly(&[1])).err(), Some(ArithError::BadArguments));
}

#[test]
fn times_x_below_the_degree_of_the_modulus_only_shifts() {
    let f = poly(&[1, 0, 0, 0, 1]);
    assert_eq!(coeffs(&mulbyxmod(&poly(&[1, 2]), &f).unwrap()), vec![0, 1, 2]);
    assert_eq!(coeffs(&mulbyxmod(&poly(&[1, 2, 3]), &f).unwrap()), vec![0, 1, 2, 3]);
    assert!(mulbyxmod(&ZZX::new(), &f).unwrap().is_zero());
}

#[test]
fn times_x_at_the_degree_of_the_modulus_wraps() {
    // x * (1 + 2x + 3x^2 + 4x^3) = x + 2x^2 + 3x^3 + 4x^4 = -4 + x + 2x^2 + 3x^3 modulo x^4 + 1
    let f = poly(&[1, 0, 0, 0, 1]);
    assert_eq!(coeffs(&mulbyxmod(&poly(&[1, 2, 3, 4]), &f).unwrap()), vec![-4, 1, 2, 3]);
    // modulo x^3 - 2x - 1: x * x^2 = 2x + 1
    let g = poly(&[-1, -2, 0, 1]);
    assert_eq!(coeffs(&mulbyxmod(&poly(&[0, 0, 1]), &g).unwrap()), vec![1, 2]);
    assert_eq!(coeffs(&mulbyxmod(&poly(&[5, 7, 3]), &g).unwrap()), vec![3, 11, 7]);
}

#[test]
fn times_x_agrees_with_the_product_by_x() {
    let f = poly(&[3, -2, 5, 0, 1]);
    let samples: Vec<Vec<i64>> =
        vec![vec![1], vec![0, 1], vec![1, 2, 3], vec![4, -3, 2, -1], vec![0, 0, 0, 7]];
    for a in &samples {
        let fast = mulbyxmod(&poly(a), &f).unwrap();
        let slow = mulmod(&poly(a), &poly(&[0, 1]), &f).unwrap();
        assert!(fast.equals(&slow));
    }
}
