use rfm::algorithm::gcd;
use rfm::math_traits::{EvenOdd, FromPrimitiveNumber, One, Zero};
use rfm::arithmetic_util::Digit as NumDigit;
use rfm::num::{calculate_inverse, Integer, Sign};
use std::cmp::Ordering;

#[test]
fn div_test() {
    assert_eq!(
        Integer::from_u128_value(1024),
        Integer::from_u128_value(2048).div(&Integer::from_u128_value(2))
    );
}

#[test]
fn div_remained_test() {
    assert_eq!(
        Integer::from_u128_value(2),
        Integer::from_u128_value(20).div(&Integer::from_u128_value(7))
    );
}

#[test]
fn remain_test() {
    assert_eq!(
        Integer::from_u128_value(6),
        Integer::from_u128_value(20).rem(&Integer::from_u128_value(7))
    );
}

#[test]
fn mul_test() {
    let a = Integer::from_number_slice(
        &vec![
            0 as NumDigit,
            340282366920938463463374607431768211454 as NumDigit,
        ],
        Sign::Positive,
    )
    .unwrap();
    let b = Integer::from_u128_value(1 as NumDigit);
    assert_eq!(a.mul(&b), a);
    assert_eq!(b.mul(&a), a);
}

#[test]
fn test_gcd() {
    assert_eq!(
        gcd(&Integer::from_i128(10), &Integer::from_i128(8)),
        Integer::from_i128(2)
    );
}

#[test]
fn gcd_of_composites() {
    assert_eq!(
        gcd(&Integer::from_i128(12), &Integer::from_i128(18)),
        Integer::from_i128(6)
    );
    assert_eq!(
        gcd(&Integer::from_i128(35), &Integer::from_i128(35)),
        Integer::from_i128(35)
    );
}

#[test]
fn gcd_with_negative_input_divides_both() {
    // the result is positive whatever the operands' signs
    let g = gcd(&Integer::from_i128(-10), &Integer::from_i128(8));
    assert_eq!(g, Integer::from_i128(2));
    let ten = Integer::from_i128(-10);
    let eight = Integer::from_i128(8);
    assert_eq!(ten.rem(&g), Integer::from_i128(0));
    assert_eq!(eight.rem(&g), Integer::from_i128(0));
    let g2 = gcd(&Integer::from_i128(-12), &Integer::from_i128(-18));
    assert_eq!(g2, Integer::from_i128(6));
}

#[test]
fn addition_commutes() {
    let a = Integer::from_i128(-123456789);
    let b = Integer::from_u128_value(987654321);
    assert_eq!(a.add(&b), b.add(&a));
    assert_eq!(a.mul(&b), b.mul(&a));
}

#[test]
fn addition_associates() {
    let a = Integer::from_i128(-5);
    let b = Integer::from_u128_value(u128::MAX);
    let c = Integer::from_i128(77);
    assert_eq!(a.add(&b).add(&c), a.add(&b.add(&c)));
}

#[test]
fn additive_inverse_gives_zero() {
    for v in [0i128, 1, -1, 42, -987654321, i128::MAX, i128::MIN] {
        let x = Integer::from_i128_value(v);
        assert_eq!(x.add(&x.neg()), Integer::zero());
    }
}

#[test]
fn multiplicative_identity_preserves_value() {
    let big = Integer::from_number_slice(
        &vec![5 as NumDigit, 0 as NumDigit, 9 as NumDigit],
        Sign::Negative,
    )
    .unwrap();
    assert_eq!(big.mul(&Integer::one()), big);
    assert_eq!(Integer::one().mul(&big), big);
}

#[test]
fn division_remainder_identity_holds() {
    for &(a, b) in &[
        (20i128, 7i128),
        (-20, 7),
        (20, -7),
        (-20, -7),
        (0, 5),
        (12345678901234567890i128, 97),
        (1, 2),
        (6, 3),
    ] {
        let ia = Integer::from_i128(a);
        let ib = Integer::from_i128(b);
        let q = ia.div(&ib);
        let r = ia.rem(&ib);
        assert_eq!(q.mul(&ib).add(&r), ia);
    }
}

#[test]
fn division_truncates_toward_zero() {
    let twenty = Integer::from_i128(20);
    let seven = Integer::from_i128(7);
    assert_eq!(twenty.neg().div(&seven), Integer::from_i128(-2));
    assert_eq!(twenty.div(&seven.neg()), Integer::from_i128(-2));
    assert_eq!(twenty.neg().div(&seven.neg()), Integer::from_i128(2));
    assert_eq!(twenty.neg().rem(&seven), Integer::from_i128(-6));
    assert_eq!(twenty.rem(&seven.neg()), Integer::from_i128(6));
}

#[test]
fn division_of_smaller_by_larger() {
    let one = Integer::from_u128_value(1);
    let two = Integer::from_u128_value(2);
    assert_eq!(one.div(&two), Integer::zero());
    assert_eq!(one.rem(&two), one);
}

#[test]
fn division_of_multi_limb_values() {
    // (2^128 + 3) / 2 = 2^127 + 1, remainder 1
    let a = Integer::from_number_slice(&vec![3 as NumDigit, 1 as NumDigit], Sign::Positive)
        .unwrap();
    let two = Integer::from_u128_value(2);
    let expected_q = Integer::from_u128_value((1u128 << 127) + 1);
    assert_eq!(a.div(&two), expected_q);
    assert_eq!(a.rem(&two), Integer::from_u128_value(1));
}

#[test]
fn division_identity_on_multi_limb_operands() {
    let mut seed: u128 = 0xfeed_beef;
    let mut next = |n: usize| -> Vec<NumDigit> {
        (0..n)
            .map(|_| {
                seed = seed
                    .wrapping_mul(6364136223846793005)
                    .wrapping_add(1442695040888963407);
                seed
            })
            .collect()
    };
    for &(la, lb, sa, sb) in &[
        (5usize, 2usize, Sign::Positive, Sign::Positive),
        (4, 1, Sign::Negative, Sign::Positive),
        (3, 2, Sign::Positive, Sign::Negative),
        (6, 3, Sign::Negative, Sign::Negative),
    ] {
        let a = Integer::from_number_slice(&next(la), sa).unwrap();
        let mut b_digits = next(lb);
        if b_digits.iter().all(|&d| d == 0) {
            b_digits[0] = 1;
        }
        let b = Integer::from_number_slice(&b_digits, sb).unwrap();
        let q = a.div(&b);
        let r = a.rem(&b);
        assert_eq!(q.mul(&b).add(&r), a);
        assert_eq!(r.abs().compare(&b.abs()), Ordering::Less);
    }
}

#[test]
fn reciprocal_converges_within_one_ulp() {
    let divisors: Vec<Integer> = vec![
        Integer::from_u128_value(1),
        Integer::from_u128_value(2),
        Integer::from_u128_value(3),
        Integer::from_u128_value(7),
        Integer::from_u128_value(10),
        Integer::from_u128_value(u128::MAX),
        Integer::from_u128_value(u128::MAX - 1),
        Integer::from_u128_value(1u128 << 127),
        Integer::from_number_slice(&vec![0 as NumDigit, 1 as NumDigit], Sign::Positive).unwrap(),
        Integer::from_number_slice(&vec![1 as NumDigit, 1 as NumDigit], Sign::Positive).unwrap(),
        Integer::from_number_slice(&vec![u128::MAX, u128::MAX], Sign::Positive).unwrap(),
        Integer::from_i128(-97),
    ];
    for b in divisors {
        let (mantissa, exponent) = calculate_inverse(&b);
        assert!(exponent <= 0);
        let scale_limbs = (-exponent) as usize;
        let mut scale_digits = vec![0 as NumDigit; scale_limbs];
        scale_digits.push(1);
        let scale = Integer::from_number_slice(&scale_digits, Sign::Positive).unwrap();
        let b_abs = b.abs();
        let product = mantissa.abs().mul(&b_abs);
        // |mantissa * |b| - base^scale| <= |b|  <=>  the reciprocal is within
        // one unit in the last place of base^scale / |b|.
        let diff = scale.sub(&product);
        assert!(diff.abs().compare(&b_abs) != Ordering::Greater);
    }
}

#[test]
fn compare_orders_values() {
    let a = Integer::from_i128(-5);
    let b = Integer::from_i128(3);
    assert_eq!(a.compare(&b), Ordering::Less);
    assert_eq!(b.compare(&a), Ordering::Greater);
    assert_eq!(b.compare(&Integer::from_u128_value(3)), Ordering::Equal);
}

#[test]
fn from_number_slice_validates_sign() {
    // a non-zero magnitude may not carry the Zero sign
    assert!(Integer::from_number_slice(&vec![5 as NumDigit], Sign::Zero).is_none());
    // a zero magnitude canonicalizes to the Zero sign whatever was passed
    let z = Integer::from_number_slice(&vec![0 as NumDigit, 0 as NumDigit], Sign::Positive)
        .unwrap();
    assert_eq!(z, Integer::zero());
    let z2 = Integer::from_number_slice(&vec![0 as NumDigit], Sign::Negative).unwrap();
    assert_eq!(z2, Integer::zero());
    assert!(Integer::from_u128_slice(&vec![5 as NumDigit], Sign::Zero).is_none());
}

#[test]
fn negation_and_absolute_value() {
    let x = Integer::from_i128(-42);
    assert_eq!(x.abs(), Integer::from_i128(42));
    assert_eq!(x.neg(), Integer::from_i128(42));
    assert_eq!(x.neg().neg(), x);
    assert_eq!(Integer::zero().neg(), Integer::zero());
    // i128::MIN has no positive i128 counterpart; its magnitude is 2^127
    assert_eq!(
        Integer::from_i128_value(i128::MIN).abs(),
        Integer::from_u128_value(1u128 << 127)
    );
}

#[test]
fn parity_follows_the_value() {
    assert!(Integer::from_i128(4).is_even());
    assert!(Integer::from_i128(-4).is_even());
    assert!(Integer::from_i128(7).is_odd());
    assert!(Integer::from_i128(-7).is_odd());
    assert!(Integer::zero().is_even());
    // 2^128 is even, 2^128 + 1 is odd
    let even = Integer::from_number_slice(&vec![0 as NumDigit, 1 as NumDigit], Sign::Positive)
        .unwrap();
    let odd = Integer::from_number_slice(&vec![1 as NumDigit, 1 as NumDigit], Sign::Positive)
        .unwrap();
    assert!(even.is_even());
    assert!(odd.is_odd());
}

#[test]
fn primitive_conversions_agree() {
    assert_eq!(Integer::from_i8(-3), Integer::from_i128(-3));
    assert_eq!(Integer::from_u8(3), Integer::from_u128(3));
    assert_eq!(Integer::from_i16(-300), Integer::from_i128(-300));
    assert_eq!(Integer::from_u16(300), Integer::from_u128(300));
    assert_eq!(Integer::from_i32(-70000), Integer::from_i128(-70000));
    assert_eq!(Integer::from_u32(70000), Integer::from_u128(70000));
    assert_eq!(
        Integer::from_i64(-7000000000),
        Integer::from_i128(-7000000000)
    );
    assert_eq!(Integer::from_u64(7000000000), Integer::from_u128(7000000000));
}
