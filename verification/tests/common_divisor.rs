use ring_lwe::gcd::gcd;
use ring_lwe::zzx::ZZX;
use rug::Integer;

fn poly(c: &[i64]) -> ZZX {
    ZZX::new_with_vec(c.iter().map(|&x| Integer::from(x)).collect())
}

fn coeffs(p: &ZZX) -> Vec<i64> {
    (0..(p.deg() + 1) as usize).map(|i| p.coeff(i).to_i64().unwrap()).collect()
}

fn product(a: &ZZX, b: &ZZX) -> ZZX {
    let mut x = ZZX::new();
    ring_lwe::product::mul(&mut x, a, b);
    x
}

#[test]
fn common_linear_factor() {
    // x^2 - 1 and x^2 - 2x + 1 share x - 1
    assert_eq!(coeffs(&gcd(&poly(&[-1, 0, 1]), &poly(&[1, -2, 1]))), vec![-1, 1]);
    assert_eq!(coeffs(&gcd(&poly(&[1, -2, 1]), &poly(&[-1, 0, 1]))), vec![-1, 1]);
}

#[test]
fn common_divisor_keeps_the_common_content() {
    // 6x^2 - 6 and 4x - 4 share 2x - 2
    assert_eq!(coeffs(&gcd(&poly(&[-6, 0, 6]), &poly(&[-4, 4]))), vec![-2, 2]);
    assert_eq!(coeffs(&gcd(&poly(&[-4, 4]), &poly(&[-6, 0, 6]))), vec![-2, 2]);
    assert_eq!(coeffs(&gcd(&poly(&[12]), &poly(&[18, 30]))), vec![6]);
}

#[test]
fn common_divisor_has_a_positive_leading_coefficient() {
    assert_eq!(coeffs(&gcd(&poly(&[6, 0, -6]), &poly(&[4, -4]))), vec![-2, 2]);
    assert_eq!(coeffs(&gcd(&poly(&[-3, -3]), &poly(&[-5, -5]))), vec![1, 1]);
}

#[test]
fn coprime_polynomials_have_a_constant_divisor() {
    assert_eq!(coeffs(&gcd(&poly(&[1, 0, 1]), &poly(&[3, 1]))), vec![1]);
    assert_eq!(coeffs(&gcd(&poly(&[2, 0, 2]), &poly(&[6, 2]))), vec![2]);
}

#[test]
fn common_divisor_of_products() {
    let g = poly(&[3, -1, 2]);
    let a = product(&g, &poly(&[1, 1]));
    let b = product(&g, &poly(&[-2, 0, 1]));
    assert_eq!(coeffs(&gcd(&a, &b)), vec![3, -1, 2]);
    let c = product(&product(&g, &g), &poly(&[5, 1]));
    assert_eq!(coeffs(&gcd(&c, &a)), vec![3, -1, 2]);
}

#[test]
fn common_divisor_with_zero_is_the_primitive_part() {
    assert_eq!(coeffs(&gcd(&ZZX::new(), &poly(&[-4, -2]))), vec![2, 1]);
    assert_eq!(coeffs(&gcd(&poly(&[6, 9]), &ZZX::new())), vec![2, 3]);
    assert!(gcd(&ZZX::new(), &ZZX::new()).is_zero());
}
