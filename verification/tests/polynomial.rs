use ring_lwe::zzx::ZZX;
use rug::Integer;

fn poly(c: &[i64]) -> ZZX {
    ZZX::new_with_vec(c.iter().map(|&x| Integer::from(x)).collect())
}

fn coeffs(p: &ZZX) -> Vec<i64> {
    (0..(p.deg() + 1) as usize).map(|i| p.coeff(i).to_i64().unwrap()).collect()
}

#[test]
fn zero_polynomial_is_empty() {
    let z = ZZX::new();
    assert!(z.is_zero());
    assert_eq!(z.deg(), -1);
    assert_eq!(coeffs(&z), Vec::<i64>::new());
    assert_eq!(z.lead_coeff(), Integer::from(0));
    assert_eq!(z.const_term(), Integer::from(0));
}

#[test]
fn constant_zero_is_the_zero_polynomial() {
    let z = ZZX::new_with_val(Integer::from(0));
    assert!(z.is_zero());
    assert_eq!(z.deg(), -1);
}

#[test]
fn constant_polynomial_has_degree_zero() {
    let c = ZZX::new_with_val(Integer::from(-7));
    assert_eq!(c.deg(), 0);
    assert_eq!(coeffs(&c), vec![-7]);
    assert!(!c.is_one());
    assert!(ZZX::new_with_val(Integer::from(1)).is_one());
}

#[test]
fn trailing_zeros_are_dropped() {
    let p = poly(&[3, 0, 5, 0, 0]);
    assert_eq!(p.deg(), 2);
    assert_eq!(coeffs(&p), vec![3, 0, 5]);
    assert_eq!(p.lead_coeff(), Integer::from(5));
}

#[test]
fn all_zero_coefficients_give_zero() {
    let p = poly(&[0, 0, 0]);
    assert!(p.is_zero());
    assert!(poly(&[]).is_zero());
}

#[test]
fn reserved_polynomial_is_zero() {
    let p = ZZX::new_with_size(16);
    assert!(p.is_zero());
    let mut q = poly(&[1, 2]);
    q.set_max_length(100);
    assert_eq!(coeffs(&q), vec![1, 2]);
}

#[test]
fn coefficient_beyond_degree_is_zero() {
    let p = poly(&[1, 2, 3]);
    assert_eq!(p.coeff(0), Integer::from(1));
    assert_eq!(p.coeff(2), Integer::from(3));
    assert_eq!(p.coeff(3), Integer::from(0));
    assert_eq!(p.get_coeff(1), Integer::from(2));
    assert_eq!(p.get_coeff(1000), Integer::from(0));
    assert_eq!(p[1], Integer::from(2));
}

#[test]
fn set_coefficient_grows_the_polynomial() {
    let mut p = poly(&[1, 2]);
    p.set_coeff(4, Some(Integer::from(9)));
    assert_eq!(coeffs(&p), vec![1, 2, 0, 0, 9]);
    assert_eq!(p.deg(), 4);
}

#[test]
fn set_coefficient_without_value_sets_one() {
    let mut p = ZZX::new();
    p.set_coeff(3, None);
    assert_eq!(coeffs(&p), vec![0, 0, 0, 1]);
}

#[test]
fn set_leading_coefficient_to_zero_shrinks() {
    let mut p = poly(&[1, 0, 0, 4]);
    p.set_coeff(3, Some(Integer::from(0)));
    assert_eq!(coeffs(&p), vec![1]);
    assert_eq!(p.deg(), 0);
    p.set_coeff(0, Some(Integer::from(0)));
    assert!(p.is_zero());
}

#[test]
fn set_zero_beyond_degree_changes_nothing() {
    let mut p = poly(&[1, 2]);
    p.set_coeff(7, Some(Integer::from(0)));
    assert_eq!(coeffs(&p), vec![1, 2]);
}

#[test]
fn set_length_cuts_and_normalizes() {
    let mut p = poly(&[1, 0, 0, 4, 5]);
    p.set_length(3);
    assert_eq!(coeffs(&p), vec![1]);
    let mut q = poly(&[1, 2]);
    q.set_length(10);
    assert_eq!(coeffs(&q), vec![1, 2]);
    q.set_length(0);
    assert!(q.is_zero());
}

#[test]
fn normalize_keeps_the_value() {
    let mut p = poly(&[4, 5, 6]);
    p.normalize();
    assert_eq!(coeffs(&p), vec![4, 5, 6]);
}

#[test]
fn monomial_x() {
    let x = ZZX::set_x();
    assert_eq!(coeffs(&x), vec![0, 1]);
    assert!(x.is_x());
    assert!(!poly(&[0, 2]).is_x());
    assert!(!poly(&[1, 1]).is_x());
    assert!(!poly(&[0, 1, 1]).is_x());
}

#[test]
fn clear_and_set() {
    let mut p = poly(&[1, 2, 3]);
    p.clear();
    assert!(p.is_zero());
    p.set();
    assert!(p.is_one());
    assert_eq!(coeffs(&p), vec![1]);
}

#[test]
fn largest_bit_length_of_coefficients() {
    assert_eq!(ZZX::new().max_bits(), 0);
    assert_eq!(poly(&[1]).max_bits(), 1);
    assert_eq!(poly(&[-255, 3, 1]).max_bits(), 8);
    assert_eq!(poly(&[1, 2, 1024]).max_bits(), 11);
    assert_eq!(poly(&[1]).max_size(), 64);
}

#[test]
fn equality_is_by_coefficients() {
    assert!(poly(&[1, 2, 3]).equals(&poly(&[1, 2, 3, 0])));
    assert!(!poly(&[1, 2, 3]).equals(&poly(&[1, 2, 4])));
    assert!(!poly(&[1, 2, 3]).equals(&poly(&[1, 2])));
    assert!(ZZX::new().equals(&poly(&[0])));
}

#[test]
fn clone_is_equal() {
    let p = poly(&[5, -6, 7]);
    let q = p.clone();
    assert!(p.equals(&q));
    assert_eq!(coeffs(&q), vec![5, -6, 7]);
}

#[test]
fn big_coefficients_are_kept_exactly() {
    let big = Integer::from(1) << 200u32;
    let p = ZZX::new_with_vec(vec![big.clone(), Integer::from(-1) * big.clone()]);
    assert_eq!(p.coeff(0), big);
    assert_eq!(p.coeff(1), -big);
    assert_eq!(p.max_bits(), 201);
}

#[test]
fn equality_operator_compares_coefficients() {
    assert_eq!(poly(&[1, 2, 3]), poly(&[1, 2, 3, 0, 0]));
    assert_ne!(poly(&[1, 2, 3]), poly(&[1, 2]));
    assert_eq!(ZZX::default(), ZZX::new());
}

#[test]
fn checked_bit_length_agrees_where_it_fits() {
    assert_eq!(ZZX::new().checked_max_bits(), Some(0));
    assert_eq!(poly(&[-255, 3, 1]).checked_max_bits(), Some(8));
    assert_eq!(poly(&[1, 2, 1024]).checked_max_bits(), Some(11));
    let big = Integer::from(1) << 5000u32;
    let p = ZZX::new_with_vec(vec![Integer::from(7), -big]);
    assert_eq!(p.checked_max_bits(), Some(5001));
    assert_eq!(p.max_bits(), 5001);
}
