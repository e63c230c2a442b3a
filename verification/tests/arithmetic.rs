use ring_lwe::linear::{diff, left_shift, negate, reverse, right_shift, trunc};
use ring_lwe::product::{mul_trunc, mul_with_integer, plain_mul, plain_sqr, sqr, sqr_trunc};
use ring_lwe::zzx::ZZX;
use rug::Integer;

fn poly(c: &[i64]) -> ZZX {
    ZZX::new_with_vec(c.iter().map(|&x| Integer::from(x)).collect())
}

fn coeffs(p: &ZZX) -> Vec<i64> {
    (0..(p.deg() + 1) as usize).map(|i| p.coeff(i).to_i64().unwrap()).collect()
}

fn sum(a: &ZZX, b: &ZZX) -> ZZX {
    let mut x = ZZX::new();
    ring_lwe::linear::add(&mut x, a, b);
    x
}

fn difference(a: &ZZX, b: &ZZX) -> ZZX {
    let mut x = ZZX::new();
    ring_lwe::linear::sub(&mut x, a, b);
    x
}

fn product(a: &ZZX, b: &ZZX) -> ZZX {
    let mut x = ZZX::new();
    ring_lwe::product::mul(&mut x, a, b);
    x
}

fn convolution(a: &[i64], b: &[i64]) -> Vec<i64> {
    if a.is_empty() || b.is_empty() {
        return vec![];
    }
    let mut c = vec![0i64; a.len() + b.len() - 1];
    for i in 0..a.len() {
        for j in 0..b.len() {
            c[i + j] += a[i] * b[j];
        }
    }
    while c.last() == Some(&0) {
        c.pop();
    }
    c
}

#[test]
fn addition_extends_the_shorter_operand() {
    assert_eq!(coeffs(&sum(&poly(&[1, 2, 3]), &poly(&[10]))), vec![11, 2, 3]);
    assert_eq!(coeffs(&sum(&poly(&[10]), &poly(&[1, 2, 3]))), vec![11, 2, 3]);
    assert_eq!(coeffs(&sum(&ZZX::new(), &poly(&[1, 2]))), vec![1, 2]);
}

#[test]
fn addition_cancels_leading_terms() {
    assert_eq!(coeffs(&sum(&poly(&[1, 2, 3]), &poly(&[0, 0, -3]))), vec![1, 2]);
    assert!(sum(&poly(&[1, 2, 3]), &poly(&[-1, -2, -3])).is_zero());
}

#[test]
fn subtraction_is_pointwise() {
    assert_eq!(coeffs(&difference(&poly(&[5, 5]), &poly(&[1, 2, 3]))), vec![4, 3, -3]);
    assert_eq!(coeffs(&difference(&ZZX::new(), &poly(&[1, -2]))), vec![-1, 2]);
    assert_eq!(coeffs(&difference(&poly(&[1, -2]), &ZZX::new())), vec![1, -2]);
    assert!(difference(&poly(&[7, 8]), &poly(&[7, 8])).is_zero());
}

#[test]
fn negation_flips_every_sign() {
    let mut q = ZZX::new();
    negate(&mut q, &poly(&[1, -2, 0, 3]));
    assert_eq!(coeffs(&q), vec![-1, 2, 0, -3]);
    negate(&mut q, &ZZX::new());
    assert!(q.is_zero());
}

#[test]
fn truncate_keeps_the_low_coefficients() {
    let a = poly(&[1, 2, 3, 4]);
    assert_eq!(coeffs(&trunc(&a, 2)), vec![1, 2]);
    assert_eq!(coeffs(&trunc(&a, 10)), vec![1, 2, 3, 4]);
    assert!(trunc(&a, 0).is_zero());
    assert_eq!(coeffs(&trunc(&poly(&[1, 0, 0, 4]), 3)), vec![1]);
}

#[test]
fn left_shift_multiplies_by_a_power_of_x() {
    let a = poly(&[1, 2, 3]);
    assert_eq!(coeffs(&left_shift(&a, 2)), vec![0, 0, 1, 2, 3]);
    assert_eq!(coeffs(&left_shift(&a, 0)), vec![1, 2, 3]);
    assert!(left_shift(&ZZX::new(), 5).is_zero());
}

#[test]
fn right_shift_divides_by_a_power_of_x() {
    let a = poly(&[1, 2, 3]);
    assert_eq!(coeffs(&right_shift(&a, 1)), vec![2, 3]);
    assert_eq!(coeffs(&right_shift(&a, 2)), vec![3]);
    assert!(right_shift(&a, 3).is_zero());
    assert!(right_shift(&a, 100).is_zero());
    assert!(right_shift(&ZZX::new(), 1).is_zero());
}

#[test]
fn negative_shift_goes_the_other_way() {
    let a = poly(&[1, 2, 3]);
    assert_eq!(coeffs(&left_shift(&a, -1)), vec![2, 3]);
    assert_eq!(coeffs(&right_shift(&a, -2)), vec![0, 0, 1, 2, 3]);
    assert!(left_shift(&a, i64::MIN).is_zero());
}

#[test]
fn derivative() {
    assert_eq!(coeffs(&diff(&poly(&[5, 3, 2, 1]))), vec![3, 4, 3]);
    assert!(diff(&poly(&[5])).is_zero());
    assert!(diff(&ZZX::new()).is_zero());
}

#[test]
fn reversal() {
    assert_eq!(coeffs(&reverse(&poly(&[1, 2, 3]), 2)), vec![3, 2, 1]);
    assert_eq!(coeffs(&reverse(&poly(&[1, 2, 3]), 4)), vec![0, 0, 3, 2, 1]);
    assert_eq!(coeffs(&reverse(&poly(&[1, 2, 3]), 1)), vec![2, 1]);
    assert_eq!(coeffs(&reverse(&poly(&[0, 2, 3]), 1)), vec![2]);
    assert!(reverse(&poly(&[1, 2, 3]), -1).is_zero());
}

#[test]
fn product_with_zero_is_zero() {
    assert!(product(&ZZX::new(), &poly(&[1, 2])).is_zero());
    assert!(product(&poly(&[1, 2]), &ZZX::new()).is_zero());
}

#[test]
fn product_of_two_binomials() {
    assert_eq!(coeffs(&product(&poly(&[1, 1]), &poly(&[-1, 1]))), vec![-1, 0, 1]);
    assert_eq!(coeffs(&product(&poly(&[2, 3]), &poly(&[4, 5, 6]))), vec![8, 22, 27, 18]);
}

#[test]
fn product_equals_the_double_sum() {
    let samples: Vec<Vec<i64>> = vec![
        vec![],
        vec![7],
        vec![1, -1],
        vec![3, 0, -2],
        vec![-4, 5, 6, 7],
        vec![1, 2, 3, 4, 5],
        vec![9, -8, 7, -6, 5, -4],
    ];
    for a in &samples {
        for b in &samples {
            let expected = convolution(a, b);
            assert_eq!(coeffs(&product(&poly(a), &poly(b))), expected);
            let mut c = ZZX::new();
            plain_mul(&mut c, &poly(a), &poly(b));
            assert_eq!(coeffs(&c), expected);
        }
    }
}

#[test]
fn square_equals_product_with_itself() {
    let samples: Vec<Vec<i64>> = vec![
        vec![],
        vec![-3],
        vec![1, 1],
        vec![2, -3, 4],
        vec![1, 2, 3, 4],
        vec![5, 0, 0, -1, 2],
        vec![1, -1, 1, -1, 1, -1, 1],
    ];
    for a in &samples {
        let p = poly(a);
        let by_mul = product(&p, &p.clone());
        let by_sqr = sqr(&p);
        let mut plain = ZZX::new();
        plain_sqr(&mut plain, &p);
        let mut general = ZZX::new();
        plain_mul(&mut general, &p, &poly(a));
        assert!(by_mul.equals(&by_sqr));
        assert!(plain.equals(&by_sqr));
        assert!(general.equals(&by_sqr));
        assert_eq!(coeffs(&by_sqr), convolution(a, a));
    }
}

#[test]
fn square_of_a_trinomial() {
    assert_eq!(coeffs(&sqr(&poly(&[1, 2, 3]))), vec![1, 4, 10, 12, 9]);
}

#[test]
fn truncated_products() {
    let a = poly(&[1, 2, 3]);
    let b = poly(&[4, 5]);
    assert_eq!(coeffs(&mul_trunc(&a, &b, 2)), vec![4, 13]);
    assert_eq!(coeffs(&mul_trunc(&a, &b, 10)), vec![4, 13, 22, 15]);
    assert_eq!(coeffs(&sqr_trunc(&a, 3)), vec![1, 4, 10]);
    assert!(sqr_trunc(&a, 0).is_zero());
}

#[test]
fn product_with_an_integer() {
    let mut x = ZZX::new();
    mul_with_integer(&mut x, &poly(&[1, -2, 3]), &Integer::from(-4));
    assert_eq!(coeffs(&x), vec![-4, 8, -12]);
    mul_with_integer(&mut x, &poly(&[1, -2, 3]), &Integer::from(0));
    assert!(x.is_zero());
}

#[test]
fn product_of_big_coefficients_is_exact() {
    let big = Integer::from(1) << 100u32;
    let a = ZZX::new_with_vec(vec![big.clone(), Integer::from(1)]);
    let p = product(&a, &ZZX::new_with_vec(vec![big.clone(), Integer::from(-1)]));
    assert_eq!(p.coeff(0), Integer::from(1) << 200u32);
    assert_eq!(p.coeff(1), Integer::from(0));
    assert_eq!(p.coeff(2), Integer::from(-1));
}
