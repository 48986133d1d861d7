use rfm::num::{Integer, Rational};
use std::cmp::Ordering;

fn rat(n: i128, d: i128) -> Rational {
    Rational::new(&Integer::from_i128_value(n), &Integer::from_i128_value(d)).unwrap()
}

#[test]
fn unreduced_sum_compares_equal() {
    // (1/2) + (1/3) = 5/6, even though the sum is carried as 5/6 over the
    // unreduced denominator 6 and compared against a separately built 5/6
    let sum = rat(1, 2).add(&rat(1, 3));
    assert_eq!(sum.compare(&rat(5, 6)), Ordering::Equal);
    assert_eq!(rat(5, 6).compare(&sum), Ordering::Equal);
}

#[test]
fn zero_denominator_is_rejected() {
    assert!(Rational::new(&Integer::from_i128_value(1), &Integer::from_i128_value(0)).is_none());
    assert!(Rational::new(&Integer::from_i128_value(0), &Integer::from_i128_value(0)).is_none());
}

#[test]
fn division_by_zero_numerator_is_rejected() {
    assert!(rat(1, 2).div(&rat(0, 5)).is_none());
}

#[test]
fn rational_arithmetic() {
    // 1/2 - 1/3 = 1/6
    assert_eq!(rat(1, 2).sub(&rat(1, 3)).compare(&rat(1, 6)), Ordering::Equal);
    // (2/3) * (9/4) = 3/2
    assert_eq!(rat(2, 3).mul(&rat(9, 4)).compare(&rat(3, 2)), Ordering::Equal);
    // (2/3) / (4/9) = 3/2
    assert_eq!(
        rat(2, 3).div(&rat(4, 9)).unwrap().compare(&rat(3, 2)),
        Ordering::Equal
    );
}

#[test]
fn rational_ordering_handles_negative_denominators() {
    // 1/-2 is -1/2, smaller than 1/3
    let a = rat(1, -2);
    let b = rat(1, 3);
    assert_eq!(a.compare(&b), Ordering::Less);
    assert_eq!(b.compare(&a), Ordering::Greater);
    // 1/-2 equals -1/2
    assert_eq!(a.compare(&rat(-1, 2)), Ordering::Equal);
}

#[test]
fn from_integer_embeds_over_one() {
    let five = Rational::from_intager(&Integer::from_i128_value(5));
    assert_eq!(five.compare(&rat(5, 1)), Ordering::Equal);
    assert_eq!(five.compare(&rat(10, 2)), Ordering::Equal);
    assert_eq!(five.compare(&rat(11, 2)), Ordering::Less);
}
