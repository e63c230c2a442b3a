use ring_lwe::content::{
    content, div_with_integer, divide_with_integer, divide_with_integer_, primitive_part,
};
use ring_lwe::division::{const_div_rem, const_rem, div, div_rem, rem};
use ring_lwe::exact::{divide, divide_, hom_divide, hom_divide_, plain_divide, plain_divide_};
use ring_lwe::pseudo::{plain_pseudo_div_rem, pseudo_div, pseudo_div_rem, pseudo_rem};
use ring_lwe::error::ArithError;
use ring_lwe::zzx::ZZX;
use rug::Integer;

fn poly(c: &[i64]) -> ZZX {
    ZZX::new_with_vec(c.iter().map(|&x| Integer::from(x)).collect())
}

fn coeffs(p: &ZZX) -> Vec<i64> {
    (0..(p.deg() + 1) as usize).map(|i| p.coeff(i).to_i64().unwrap()).collect()
}

fn product(a: &ZZX, b: &ZZX) -> ZZX {
    let mut x = ZZX::new();
    ring_lwe::product::mul(&mut x, a, b);
    x
}

fn sum(a: &ZZX, b: &ZZX) -> ZZX {
    let mut x = ZZX::new();
    ring_lwe::linear::add(&mut x, a, b);
    x
}

fn scaled(a: &ZZX, c: &Integer) -> ZZX {
    let mut x = ZZX::new();
    ring_lwe::product::mul_with_integer(&mut x, a, c);
    x
}

fn check_pseudo_division(a: &[i64], b: &[i64]) {
    let pa = poly(a);
    let pb = poly(b);
    let mut q = ZZX::new();
    let mut r = ZZX::new();
    let k = plain_pseudo_div_rem(&mut q, &mut r, &pa, &pb).unwrap();
    assert!(r.deg() < pb.deg());
    let expected_k = if pa.deg() >= pb.deg() { (pa.deg() - pb.deg() + 1) as u64 } else { 0 };
    assert_eq!(k, expected_k);
    let scale = Integer::from(rug::ops::Pow::pow(pb.lead_coeff(), k as u32));
    let left = scaled(&pa, &scale);
    let right = sum(&product(&q, &pb), &r);
    assert!(left.equals(&right), "lead(b)^k * a = q * b + r fails for {:?} / {:?}", a, b);
}

#[test]
fn pseudo_division_identity_holds() {
    let dividends: Vec<Vec<i64>> = vec![
        vec![],
        vec![5],
        vec![1, 2],
        vec![3, -1, 4, 1],
        vec![7, 0, 0, 0, 2],
        vec![-1, 5, -9, 2, 6, 5],
        vec![1, 1, 1, 1, 1, 1, 1, 1],
    ];
    let divisors: Vec<Vec<i64>> = vec![
        vec![1],
        vec![-3],
        vec![1, 1],
        vec![2, 3],
        vec![-1, 0, 2],
        vec![5, -4, 3],
        vec![1, 0, 0, -1],
        vec![2, 7, 1, 8, 2],
    ];
    for a in &dividends {
        for b in &divisors {
            check_pseudo_division(a, b);
        }
    }
}

#[test]
fn pseudo_division_example() {
    // 4 * (x^2 + 1) = (2x - 1) * (2x + 1) + 5
    let mut q = ZZX::new();
    let mut r = ZZX::new();
    let k = plain_pseudo_div_rem(&mut q, &mut r, &poly(&[1, 0, 1]), &poly(&[1, 2])).unwrap();
    assert_eq!(k, 2);
    assert_eq!(coeffs(&q), vec![-1, 2]);
    assert_eq!(coeffs(&r), vec![5]);
}

#[test]
fn pseudo_division_by_a_longer_divisor() {
    let mut q = poly(&[9]);
    let mut r = poly(&[9]);
    let k = pseudo_div_rem(&mut q, &mut r, &poly(&[1, 2]), &poly(&[1, 2, 3])).unwrap();
    assert_eq!(k, 0);
    assert!(q.is_zero());
    assert_eq!(coeffs(&r), vec![1, 2]);
}

#[test]
fn pseudo_division_by_zero_fails() {
    let mut q = poly(&[9]);
    let mut r = poly(&[8]);
    let res = plain_pseudo_div_rem(&mut q, &mut r, &poly(&[1, 2]), &ZZX::new());
    assert_eq!(res, Err(ArithError::DivisionByZero));
    assert_eq!(coeffs(&q), vec![9]);
    assert_eq!(coeffs(&r), vec![8]);
    assert_eq!(pseudo_rem(&mut r, &poly(&[1]), &ZZX::new()), Err(ArithError::DivisionByZero));
    assert_eq!(pseudo_div(&mut q, &poly(&[1]), &ZZX::new()), Err(ArithError::DivisionByZero));
}

#[test]
fn pseudo_remainder_and_quotient_alone() {
    let mut q = ZZX::new();
    let mut r = ZZX::new();
    assert_eq!(pseudo_rem(&mut r, &poly(&[1, 0, 1]), &poly(&[1, 2])), Ok(2));
    assert_eq!(coeffs(&r), vec![5]);
    assert_eq!(pseudo_div(&mut q, &poly(&[1, 0, 1]), &poly(&[1, 2])), Ok(2));
    assert_eq!(coeffs(&q), vec![-1, 2]);
}

#[test]
fn remainder_by_a_monic_polynomial() {
    // x^3 + 2x + 5 = x * (x^2 + 1) + (x + 5)
    let mut r = ZZX::new();
    assert_eq!(rem(&mut r, &poly(&[5, 2, 0, 1]), &poly(&[1, 0, 1])), Ok(()));
    assert_eq!(coeffs(&r), vec![5, 1]);
}

#[test]
fn remainder_by_a_polynomial_with_leading_coefficient_minus_one() {
    // x^3 + 2x + 5 = (-x) * (-x^2 - 1) + (x + 5)
    let mut r = ZZX::new();
    assert_eq!(rem(&mut r, &poly(&[5, 2, 0, 1]), &poly(&[-1, 0, -1])), Ok(()));
    assert_eq!(coeffs(&r), vec![5, 1]);
}

#[test]
fn remainder_of_a_shorter_dividend_is_the_dividend() {
    let mut r = ZZX::new();
    assert_eq!(rem(&mut r, &poly(&[1, 2]), &poly(&[1, 2, 3])), Ok(()));
    assert_eq!(coeffs(&r), vec![1, 2]);
}

#[test]
fn remainder_by_a_constant_is_zero() {
    let mut r = poly(&[1]);
    assert_eq!(rem(&mut r, &poly(&[1, 2, 3]), &poly(&[7])), Ok(()));
    assert!(r.is_zero());
    let mut r2 = poly(&[1]);
    assert_eq!(const_rem(&mut r2, &poly(&[1, 2, 3]), &Integer::from(7)), Ok(()));
    assert!(r2.is_zero());
    assert_eq!(
        const_rem(&mut r2, &poly(&[1, 2, 3]), &Integer::from(0)),
        Err(ArithError::DivisionByZero)
    );
}

#[test]
fn remainder_by_zero_fails() {
    let mut r = poly(&[4]);
    assert_eq!(rem(&mut r, &poly(&[1, 2]), &ZZX::new()), Err(ArithError::DivisionByZero));
    assert_eq!(coeffs(&r), vec![4]);
}

#[test]
fn remainder_of_an_exact_multiple_is_zero() {
    let b = poly(&[3, 2]);
    let a = product(&b, &poly(&[1, -4, 5]));
    let mut r = poly(&[1]);
    assert_eq!(rem(&mut r, &a, &b), Ok(()));
    assert!(r.is_zero());
}

#[test]
fn remainder_that_is_integral_after_scaling() {
    // 2x^2 + 1 = x * (2x) + 1
    let mut r = ZZX::new();
    assert_eq!(rem(&mut r, &poly(&[1, 0, 2]), &poly(&[0, 2])), Ok(()));
    assert_eq!(coeffs(&r), vec![1]);
}

#[test]
fn remainder_that_is_not_integral_fails() {
    // x^2 + 1 modulo 2x + 1 is 5/4
    let mut r = poly(&[4]);
    assert_eq!(rem(&mut r, &poly(&[1, 0, 1]), &poly(&[1, 2])), Err(ArithError::NotIntegral));
    assert_eq!(coeffs(&r), vec![4]);
}

#[test]
fn division_with_remainder_by_a_monic_polynomial() {
    let mut q = ZZX::new();
    let mut r = ZZX::new();
    assert_eq!(div_rem(&mut q, &mut r, &poly(&[5, 2, 0, 1]), &poly(&[1, 0, 1])), Ok(()));
    assert_eq!(coeffs(&q), vec![0, 1]);
    assert_eq!(coeffs(&r), vec![5, 1]);
    assert_eq!(div_rem(&mut q, &mut r, &poly(&[5, 2, 0, 1]), &poly(&[-1, 0, -1])), Ok(()));
    assert_eq!(coeffs(&q), vec![0, -1]);
    assert_eq!(coeffs(&r), vec![5, 1]);
}

#[test]
fn division_with_remainder_in_general() {
    let mut q = ZZX::new();
    let mut r = ZZX::new();
    // 4x^2 + 4x + 3 = (2x + 1) * (2x + 1) + 2
    assert_eq!(div_rem(&mut q, &mut r, &poly(&[3, 4, 4]), &poly(&[1, 2])), Ok(()));
    assert_eq!(coeffs(&q), vec![1, 2]);
    assert_eq!(coeffs(&r), vec![2]);
    // an exact multiple
    let b = poly(&[3, 0, 2]);
    let a = product(&b, &poly(&[1, -4, 5]));
    assert_eq!(div_rem(&mut q, &mut r, &a, &b), Ok(()));
    assert_eq!(coeffs(&q), vec![1, -4, 5]);
    assert!(r.is_zero());
    // a shorter dividend
    assert_eq!(div_rem(&mut q, &mut r, &poly(&[1, 2]), &poly(&[1, 2, 3])), Ok(()));
    assert!(q.is_zero());
    assert_eq!(coeffs(&r), vec![1, 2]);
}

#[test]
fn division_with_remainder_fails_where_it_is_not_integral() {
    let mut q = poly(&[7]);
    let mut r = poly(&[8]);
    assert_eq!(
        div_rem(&mut q, &mut r, &poly(&[1, 0, 1]), &poly(&[1, 2])),
        Err(ArithError::NotIntegral)
    );
    assert_eq!(coeffs(&q), vec![7]);
    assert_eq!(coeffs(&r), vec![8]);
    assert_eq!(
        div_rem(&mut q, &mut r, &poly(&[1, 0, 1]), &ZZX::new()),
        Err(ArithError::DivisionByZero)
    );
    assert_eq!(
        div_rem(&mut q, &mut r, &poly(&[1, 2, 4]), &poly(&[2])),
        Err(ArithError::NotIntegral)
    );
}

#[test]
fn division_by_a_constant() {
    let mut q = ZZX::new();
    let mut r = poly(&[1]);
    assert_eq!(div_rem(&mut q, &mut r, &poly(&[2, 4, -6]), &poly(&[2])), Ok(()));
    assert_eq!(coeffs(&q), vec![1, 2, -3]);
    assert!(r.is_zero());
    assert_eq!(const_div_rem(&mut q, &mut r, &poly(&[3, 9]), &Integer::from(-3)), Ok(()));
    assert_eq!(coeffs(&q), vec![-1, -3]);
    assert_eq!(
        const_div_rem(&mut q, &mut r, &poly(&[3, 10]), &Integer::from(3)),
        Err(ArithError::NotIntegral)
    );
    assert_eq!(
        const_div_rem(&mut q, &mut r, &poly(&[3, 9]), &Integer::from(0)),
        Err(ArithError::DivisionByZero)
    );
    assert_eq!(div_with_integer(&mut q, &poly(&[4, 8]), &Integer::from(4)), Ok(()));
    assert_eq!(coeffs(&q), vec![1, 2]);
    assert_eq!(
        div_with_integer(&mut q, &poly(&[4, 9]), &Integer::from(4)),
        Err(ArithError::NotIntegral)
    );
    assert_eq!(
        div_with_integer(&mut q, &poly(&[4, 8]), &Integer::from(0)),
        Err(ArithError::DivisionByZero)
    );
}

#[test]
fn quotient_alone() {
    let mut q = ZZX::new();
    assert_eq!(div(&mut q, &poly(&[5, 2, 0, 1]), &poly(&[1, 0, 1])), Ok(()));
    assert_eq!(coeffs(&q), vec![0, 1]);
    assert_eq!(div(&mut q, &poly(&[1, 0, 1]), &poly(&[1, 2])), Err(ArithError::NotIntegral));
    assert_eq!(div(&mut q, &poly(&[1, 0, 1]), &ZZX::new()), Err(ArithError::DivisionByZero));
}

#[test]
fn exact_division_finds_the_quotient() {
    let b = poly(&[6, -4, 2]);
    let expected = poly(&[3, 0, -9, 12]);
    let a = product(&b, &expected);
    let mut q = ZZX::new();
    assert!(divide(&mut q, &a, &b));
    assert!(q.equals(&expected));
    let mut q2 = ZZX::new();
    assert!(plain_divide(&mut q2, &a, &b));
    assert!(q2.equals(&expected));
    let mut q3 = ZZX::new();
    assert!(hom_divide(&mut q3, &a, &b));
    assert!(q3.equals(&expected));
    assert!(divide_(&a, &b));
    assert!(plain_divide_(&a, &b));
    assert!(hom_divide_(&a, &b));
}

#[test]
fn exact_division_of_long_polynomials() {
    let b = poly(&[1, 2, 3, 4, 5, 6, 7, 8, 9, 10, 11]);
    let expected = poly(&[2, -1, 0, 3, 5, -7, 1, 1, 4, -2, 6, 9]);
    let a = product(&b, &expected);
    let mut q = ZZX::new();
    assert!(divide(&mut q, &a, &b));
    assert!(q.equals(&expected));
    assert!(divide_(&a, &b));
    let mut r = poly(&[1]);
    assert_eq!(rem(&mut r, &a, &b), Ok(()));
    assert!(r.is_zero());
}

#[test]
fn exact_division_rejects_what_does_not_divide() {
    let mut q = poly(&[7]);
    assert!(!divide(&mut q, &poly(&[1, 0, 1]), &poly(&[1, 1])));
    assert_eq!(coeffs(&q), vec![7]);
    assert!(!divide(&mut q, &poly(&[1, 3, 2]), &poly(&[2, 4])));
    assert!(!divide(&mut q, &poly(&[1, 1]), &poly(&[1, 0, 1])));
    assert!(!divide_(&poly(&[1, 0, 1]), &poly(&[1, 1])));
    assert!(!plain_divide_(&poly(&[1, 0, 1]), &poly(&[1, 1])));
    assert!(!hom_divide_(&poly(&[1, 0, 1]), &poly(&[1, 1])));
    assert!(!hom_divide(&mut q, &poly(&[1, 0, 1]), &poly(&[1, 1])));
}

#[test]
fn exact_division_with_zero() {
    let mut q = poly(&[7]);
    assert!(divide(&mut q, &ZZX::new(), &ZZX::new()));
    assert!(q.is_zero());
    let mut q2 = poly(&[7]);
    assert!(!divide(&mut q2, &poly(&[1]), &ZZX::new()));
    assert_eq!(coeffs(&q2), vec![7]);
    assert!(divide(&mut q2, &ZZX::new(), &poly(&[1, 1])));
    assert!(q2.is_zero());
    assert!(divide_(&ZZX::new(), &poly(&[1, 1])));
    assert!(!divide_(&poly(&[1]), &ZZX::new()));
}

#[test]
fn exact_division_by_an_integer() {
    let mut q = ZZX::new();
    assert!(divide_with_integer(&mut q, &poly(&[6, -9, 12]), &Integer::from(3)));
    assert_eq!(coeffs(&q), vec![2, -3, 4]);
    assert!(divide_with_integer(&mut q, &poly(&[6, -9, 12]), &Integer::from(-1)));
    assert_eq!(coeffs(&q), vec![-6, 9, -12]);
    assert!(divide_with_integer(&mut q, &poly(&[6, -9, 12]), &Integer::from(1)));
    assert_eq!(coeffs(&q), vec![6, -9, 12]);
    assert!(!divide_with_integer(&mut q, &poly(&[6, -9, 13]), &Integer::from(3)));
    assert_eq!(coeffs(&q), vec![6, -9, 12]);
    assert!(!divide_with_integer(&mut q, &poly(&[6]), &Integer::from(0)));
    assert!(divide_with_integer(&mut q, &ZZX::new(), &Integer::from(0)));
    assert!(q.is_zero());
    assert!(divide_with_integer_(&poly(&[6, -9, 12]), &Integer::from(3)));
    assert!(!divide_with_integer_(&poly(&[6, -9, 13]), &Integer::from(3)));
    assert!(divide_with_integer_(&poly(&[6, -9, 13]), &Integer::from(-1)));
    assert!(divide_with_integer_(&ZZX::new(), &Integer::from(0)));
    assert!(!divide_with_integer_(&poly(&[1]), &Integer::from(0)));
    assert!(divide(&mut q, &poly(&[4, 8]), &poly(&[4])));
    assert_eq!(coeffs(&q), vec![1, 2]);
    assert!(!divide(&mut q, &poly(&[4, 9]), &poly(&[4])));
}

#[test]
fn content_is_the_gcd_with_the_sign_of_the_leading_coefficient() {
    assert_eq!(content(&poly(&[6, -9, 12])), Integer::from(3));
    assert_eq!(content(&poly(&[6, -9, -12])), Integer::from(-3));
    assert_eq!(content(&poly(&[4, 6, 9])), Integer::from(1));
    assert_eq!(content(&poly(&[0, 0, -5])), Integer::from(-5));
    assert_eq!(content(&ZZX::new()), Integer::from(0));
}

#[test]
fn primitive_part_divides_the_content_out() {
    assert_eq!(coeffs(&primitive_part(&poly(&[6, -9, 12]))), vec![2, -3, 4]);
    assert_eq!(coeffs(&primitive_part(&poly(&[6, -9, -12]))), vec![-2, 3, 4]);
    assert!(primitive_part(&ZZX::new()).is_zero());
}

#[test]
fn exact_division_finds_quotients_with_large_coefficients() {
    let big = Integer::from(1) << 300u32;
    let q = ZZX::new_with_vec(vec![big.clone(), -(big.clone() >> 1u32), Integer::from(1)]);
    let b = poly(&[3, 1, 2]);
    let a = product(&q, &b);
    let mut found = ZZX::new();
    assert!(divide(&mut found, &a, &b));
    assert!(found.equals(&q));
    assert!(divide_(&a, &b));
    // one more than a multiple is no multiple
    let off = sum(&a, &poly(&[1]));
    let mut kept = poly(&[7]);
    assert!(!divide(&mut kept, &off, &b));
    assert_eq!(coeffs(&kept), vec![7]);
    assert!(!divide_(&off, &b));
}
