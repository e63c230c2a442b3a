use ring_lwe::linear::trunc;
use ring_lwe::error::ArithError;
use ring_lwe::inverse::{inv_trunc, newton_inv_trunc};
use ring_lwe::zzx::ZZX;
use rug::Integer;

fn poly(c: &[i64]) -> ZZX {
    ZZX::new_with_vec(c.iter().map(|&x| Integer::from(x)).collect())
}

fn coeffs(p: &ZZX) -> Vec<i64> {
    (0..(p.deg() + 1) as usize).map(|i| p.coeff(i).to_i64().unwrap()).collect()
}

fn product(a: &ZZX, b: &ZZX) -> ZZX {
    let mut x = ZZX::new();
    ring_lwe::product::mul(&mut x, a, b);
    x
}

#[test]
fn inverse_of_one_minus_x_is_the_geometric_series() {
    let g = inv_trunc(&poly(&[1, -1]), 6).unwrap();
    assert_eq!(coeffs(&g), vec![1, 1, 1, 1, 1, 1]);
}

#[test]
fn inverse_of_one_plus_x() {
    let g = inv_trunc(&poly(&[1, 1]), 5).unwrap();
    assert_eq!(coeffs(&g), vec![1, -1, 1, -1, 1]);
}

#[test]
fn inverse_with_constant_term_minus_one() {
    let g = inv_trunc(&poly(&[-1, 2]), 4).unwrap();
    assert_eq!(coeffs(&g), vec![-1, -2, -4, -8]);
}

#[test]
fn inverse_to_one_term_is_the_constant_term() {
    assert_eq!(coeffs(&inv_trunc(&poly(&[1, 5, 7]), 1).unwrap()), vec![1]);
    assert_eq!(coeffs(&inv_trunc(&poly(&[-1, 5, 7]), 1).unwrap()), vec![-1]);
    assert_eq!(coeffs(&newton_inv_trunc(&poly(&[-1, 5, 7]), 1).unwrap()), vec![-1]);
}

#[test]
fn inverse_to_no_terms_is_zero() {
    assert!(inv_trunc(&poly(&[1, 5, 7]), 0).unwrap().is_zero());
    assert!(inv_trunc(&poly(&[2, 5, 7]), 0).unwrap().is_zero());
    assert!(inv_trunc(&ZZX::new(), 0).unwrap().is_zero());
}

#[test]
fn inverse_to_a_negative_number_of_terms_fails() {
    assert_eq!(inv_trunc(&poly(&[1, 1]), -1).err(), Some(ArithError::NegativeLength));
    assert_eq!(inv_trunc(&poly(&[2, 1]), -5).err(), Some(ArithError::NegativeLength));
}

#[test]
fn inverse_needs_a_unit_constant_term() {
    assert_eq!(inv_trunc(&poly(&[2, 1]), 3).err(), Some(ArithError::NonInvertible));
    assert_eq!(inv_trunc(&poly(&[0, 1]), 3).err(), Some(ArithError::NonInvertible));
    assert_eq!(inv_trunc(&ZZX::new(), 1).err(), Some(ArithError::NonInvertible));
    assert_eq!(newton_inv_trunc(&poly(&[3]), 2).err(), Some(ArithError::NonInvertible));
}

#[test]
fn product_with_the_inverse_is_one() {
    let samples: Vec<Vec<i64>> = vec![
        vec![1],
        vec![-1],
        vec![1, 1],
        vec![-1, 3, 2],
        vec![1, -4, 0, 7, 2],
        vec![-1, 0, 0, 0, 0, 0, 5],
        vec![1, 2, 3, 4, 5, 6, 7, 8, 9],
    ];
    for a in &samples {
        for e in 1..20 {
            let pa = poly(a);
            let g = inv_trunc(&pa, e).unwrap();
            assert!(g.deg() < e);
            assert_eq!(g.const_term(), pa.const_term());
            let t = trunc(&product(&pa, &g), e);
            assert!(t.is_one(), "a = {:?}, e = {}", a, e);
        }
    }
}
