use polyrhythm::rational::Rational;

fn q(n: i64, d: i64) -> Rational {
    Rational::new(n, d).unwrap()
}

#[test]
fn new_puts_into_lowest_terms() {
    let r = q(2, 4);
    assert_eq!(r.numer(), 1);
    assert_eq!(r.denom(), 2);
    assert_eq!(q(6, 9), q(2, 3));
    assert_eq!(q(0, 7), Rational::zero());
    assert_eq!(q(5, 5), Rational::one());
}

#[test]
fn new_keeps_the_denominator_positive() {
    let r = q(3, -6);
    assert_eq!(r.numer(), -1);
    assert_eq!(r.denom(), 2);
    assert_eq!(q(-3, -6), q(1, 2));
}

#[test]
fn new_refuses_zero_denominator_and_minimum() {
    assert_eq!(Rational::new(1, 0), None);
    assert_eq!(Rational::new(i64::MIN, 3), None);
    assert_eq!(Rational::new(3, i64::MIN), None);
}

#[test]
fn from_u32_is_an_integer() {
    let r = Rational::from_u32(7);
    assert_eq!(r.numer(), 7);
    assert_eq!(r.denom(), 1);
    assert_eq!(Rational::from_u32(u32::MAX).numer(), 4294967295);
}

#[test]
fn checked_add_is_exact() {
    assert_eq!(q(1, 3).checked_add(q(1, 6)), Some(q(1, 2)));
    assert_eq!(q(1, 2).checked_add(q(-1, 2)), Some(Rational::zero()));
    assert_eq!(q(3, 8).checked_add(q(1, 8)), Some(q(1, 2)));
    // ten additions of a tenth make exactly one
    let mut sum = Rational::zero();
    for _ in 0..10 {
        sum = sum.checked_add(q(1, 10)).unwrap();
    }
    assert_eq!(sum, Rational::one());
}

#[test]
fn checked_sub_is_exact() {
    assert_eq!(q(1, 2).checked_sub(q(1, 3)), Some(q(1, 6)));
    assert_eq!(q(1, 3).checked_sub(q(1, 2)), Some(q(-1, 6)));
    assert_eq!(q(5, 7).checked_sub(q(5, 7)), Some(Rational::zero()));
}

#[test]
fn checked_mul_is_exact() {
    assert_eq!(q(2, 3).checked_mul(q(3, 4)), Some(q(1, 2)));
    assert_eq!(q(-2, 3).checked_mul(q(3, 2)), Some(q(-1, 1)));
    assert_eq!(q(1, 4).checked_mul(q(3, 2)), Some(q(3, 8)));
    assert_eq!(q(5, 9).checked_mul(Rational::zero()), Some(Rational::zero()));
}

#[test]
fn checked_div_is_exact() {
    assert_eq!(q(1, 2).checked_div(q(1, 4)), Some(q(2, 1)));
    assert_eq!(q(1, 2).checked_div(q(-1, 4)), Some(q(-2, 1)));
    assert_eq!(q(15, 1).checked_div(q(60, 1)), Some(q(1, 4)));
    assert_eq!(Rational::zero().checked_div(q(3, 5)), Some(Rational::zero()));
}

#[test]
fn checked_div_by_zero_is_none() {
    assert_eq!(q(1, 2).checked_div(Rational::zero()), None);
}

#[test]
fn checked_operations_refuse_what_does_not_fit() {
    let big = q(i64::MAX, 1);
    assert_eq!(big.checked_add(Rational::one()), None);
    assert_eq!(big.checked_mul(q(2, 1)), None);
    assert_eq!(q(-i64::MAX, 1).checked_sub(Rational::one()), None);
    let fine = q(1, i64::MAX);
    assert_eq!(fine.checked_add(q(1, 2)), None);
    assert_eq!(fine.checked_div(q(2, 1)), None);
    // the largest magnitude itself is still fine
    assert_eq!(big.checked_add(Rational::zero()), Some(big));
    assert_eq!(big.checked_mul(Rational::one()), Some(big));
}

#[test]
fn comparison_is_by_value() {
    assert!(q(1, 3).lt(&q(1, 2)));
    assert!(!q(1, 2).lt(&q(1, 3)));
    assert!(!q(1, 2).lt(&q(1, 2)));
    assert!(q(1, 2).le(&q(1, 2)));
    assert!(q(-1, 2).lt(&q(1, 3)));
    assert!(q(-1, 2).lt(&q(-1, 3)));
    assert!(q(i64::MAX, 1).le(&q(i64::MAX, 1)));
    assert!(q(-i64::MAX, 1).lt(&q(i64::MAX, 1)));
}

#[test]
fn abs_and_is_zero() {
    assert_eq!(q(-3, 4).abs(), q(3, 4));
    assert_eq!(q(3, 4).abs(), q(3, 4));
    assert_eq!(Rational::zero().abs(), Rational::zero());
    assert!(Rational::zero().is_zero());
    assert!(!q(1, 1000).is_zero());
}
