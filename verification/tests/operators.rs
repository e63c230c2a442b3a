use ring_lwe::zzx::ZZX;
use rug::ops::NegAssign;
use rug::Integer;

fn polynomial(c: &[i64]) -> ZZX {
    ZZX::new_with_vec(c.iter().map(|&x| Integer::from(x)).collect())
}

fn listed(p: &ZZX) -> Vec<i64> {
    (0..(p.deg() + 1) as usize).map(|i| p.coeff(i).to_i64().unwrap()).collect()
}

#[test]
fn plus_adds_coefficient_by_coefficient() {
    let a = polynomial(&[1, 2, 3]);
    let b = polynomial(&[4, -2]);
    assert_eq!(listed(&(&a + &b)), vec![5, 0, 3]);
    assert_eq!(listed(&(a.clone() + &b)), vec![5, 0, 3]);
    assert_eq!(listed(&(&a + b.clone())), vec![5, 0, 3]);
    assert_eq!(listed(&(a + b)), vec![5, 0, 3]);
}

#[test]
fn plus_strips_what_cancels() {
    let a = polynomial(&[1, 2, 3]);
    let b = polynomial(&[0, 1, -3]);
    assert_eq!(listed(&(&a + &b)), vec![1, 3]);
    let c = polynomial(&[-1, -2, -3]);
    assert!((a + c).is_zero());
}

#[test]
fn minus_subtracts_coefficient_by_coefficient() {
    let a = polynomial(&[1, 2, 3]);
    let b = polynomial(&[4, -2]);
    assert_eq!(listed(&(&a - &b)), vec![-3, 4, 3]);
    assert_eq!(listed(&(a.clone() - &b)), vec![-3, 4, 3]);
    assert_eq!(listed(&(&a - b.clone())), vec![-3, 4, 3]);
    assert_eq!(listed(&(b - a)), vec![3, -4, -3]);
}

#[test]
fn minus_of_itself_is_zero() {
    let a = polynomial(&[7, 0, -5]);
    assert!((&a - &a).is_zero());
}

#[test]
fn unary_minus_negates_every_coefficient() {
    assert_eq!(listed(&(-polynomial(&[1, -2, 0, 3]))), vec![-1, 2, 0, -3]);
    assert!((-ZZX::new()).is_zero());
}

#[test]
fn star_multiplies() {
    let a = polynomial(&[1, 2]);
    let b = polynomial(&[3, 0, 1]);
    // (1 + 2X)(3 + X^2) = 3 + 6X + X^2 + 2X^3
    assert_eq!(listed(&(&a * &b)), vec![3, 6, 1, 2]);
    assert_eq!(listed(&(&b * &a)), vec![3, 6, 1, 2]);
    assert_eq!(listed(&(a * b)), vec![3, 6, 1, 2]);
}

#[test]
fn star_with_zero_is_zero() {
    let a = polynomial(&[1, 2]);
    assert!((&a * &ZZX::new()).is_zero());
    assert!((ZZX::new() * a).is_zero());
}

#[test]
fn star_of_a_polynomial_with_itself_squares() {
    let a = polynomial(&[1, -1, 2]);
    // (1 - X + 2X^2)^2 = 1 - 2X + 5X^2 - 4X^3 + 4X^4
    assert_eq!(listed(&(&a * &a)), vec![1, -2, 5, -4, 4]);
}

#[test]
fn assigning_operators_replace_the_left_operand() {
    let mut a = polynomial(&[1, 2, 3]);
    a += polynomial(&[1, 1]);
    assert_eq!(listed(&a), vec![2, 3, 3]);
    a -= polynomial(&[0, 0, 3]);
    assert_eq!(listed(&a), vec![2, 3]);
    a *= polynomial(&[0, 1]);
    assert_eq!(listed(&a), vec![0, 2, 3]);
    a <<= 2;
    assert_eq!(listed(&a), vec![0, 0, 0, 2, 3]);
    a >>= 3;
    assert_eq!(listed(&a), vec![2, 3]);
    a.neg_assign();
    assert_eq!(listed(&a), vec![-2, -3]);
}

#[test]
fn slash_gives_the_quotient() {
    // X^3 - 1 = (X - 1)(X^2 + X + 1)
    let a = polynomial(&[-1, 0, 0, 1]);
    let b = polynomial(&[-1, 1]);
    assert_eq!(listed(&(a / b)), vec![1, 1, 1]);
    // X^2 + 1 = (X + 1)(X - 1) + 2
    let c = polynomial(&[1, 0, 1]);
    let d = polynomial(&[1, 1]);
    assert_eq!(listed(&(c / d)), vec![-1, 1]);
}

#[test]
fn percent_gives_the_remainder() {
    let c = polynomial(&[1, 0, 1]);
    let d = polynomial(&[1, 1]);
    assert_eq!(listed(&(c / d.clone())), vec![-1, 1]);
    assert_eq!(listed(&(polynomial(&[1, 0, 1]) % d)), vec![2]);
    let a = polynomial(&[-1, 0, 0, 1]);
    let b = polynomial(&[-1, 1]);
    assert!((a % b).is_zero());
}

#[test]
fn slash_by_an_integer_divides_every_coefficient() {
    let a = polynomial(&[6, -9, 0, 3]);
    assert_eq!(listed(&(a / Integer::from(3))), vec![2, -3, 0, 1]);
    let b = polynomial(&[6, -9, 0, 3]);
    assert_eq!(listed(&(b / Integer::from(-3))), vec![-2, 3, 0, -1]);
}

#[test]
fn percent_by_an_integer_is_zero() {
    let a = polynomial(&[6, -9, 0, 4]);
    assert!((a % Integer::from(5)).is_zero());
}

#[test]
fn shifts_multiply_and_divide_by_powers_of_the_variable() {
    assert_eq!(listed(&(polynomial(&[1, 2]) << 2)), vec![0, 0, 1, 2]);
    assert_eq!(listed(&(polynomial(&[1, 2, 3]) >> 1)), vec![2, 3]);
    assert_eq!(listed(&(polynomial(&[1, 2, 3]) << -2)), vec![3]);
    assert_eq!(listed(&(polynomial(&[1, 2]) >> -1)), vec![0, 1, 2]);
    assert!((polynomial(&[1, 2]) >> 2).is_zero());
    assert_eq!(listed(&(polynomial(&[1, 2]) << 0)), vec![1, 2]);
}

#[test]
fn brackets_read_a_coefficient() {
    let a = polynomial(&[5, 0, -7]);
    assert_eq!(a[0], Integer::from(5));
    assert_eq!(a[1], Integer::from(0));
    assert_eq!(a[2], Integer::from(-7));
}
