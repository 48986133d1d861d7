use rfm::arithmetic_util::{
    append_upper_zeros, arbitrary_precision_add, arbitrary_precision_mul, arbitrary_precision_sub,
    cut_upper_zeros, drop_lower_limbs, halve_limbs, safe_multiply_digit, shift_limbs, Digit,
};

#[test]
fn test_append() {
    assert_eq!(
        append_upper_zeros(&vec![1 as Digit], 3),
        vec![1 as Digit, 0 as Digit, 0 as Digit]
    );
}

#[test]
fn test_mul_by_zero() {
    assert_eq!(
        arbitrary_precision_mul(&vec![1 as Digit; 3], &vec![0 as Digit]),
        vec![0 as Digit]
    );
    assert_eq!(
        arbitrary_precision_mul(&vec![0 as Digit], &vec![1 as Digit; 3]),
        vec![0 as Digit]
    );
}

#[test]
fn test_mul_by_one() {
    let lhs = vec![1 as Digit, 2 as Digit, 3 as Digit];
    assert_eq!(arbitrary_precision_mul(&lhs, &vec![1 as Digit]), lhs);
    assert_eq!(arbitrary_precision_mul(&vec![1 as Digit], &lhs), lhs);
}

#[test]
fn test_bug_case() {
    assert_eq!(
        arbitrary_precision_mul(&vec![1 as Digit], &vec![1 as Digit, 3 as Digit]),
        vec![1 as Digit, 3 as Digit]
    );
}

#[test]
fn test_shift() {
    assert_eq!(
        arbitrary_precision_mul(&vec![0 as Digit, 1 as Digit], &vec![1234567 as Digit]),
        vec![0 as Digit, 1234567 as Digit]
    );
    assert_eq!(
        arbitrary_precision_mul(&vec![1234567 as Digit], &vec![0 as Digit, 1 as Digit]),
        vec![0 as Digit, 1234567 as Digit]
    );
}

#[test]
fn arithmetic_util_test_multiply() {
    assert_eq!(
        safe_multiply_digit(Digit::MAX, 2 as Digit),
        vec![Digit::MAX - 1 as Digit, 1]
    );
}

#[test]
fn mul_zero() {
    assert_eq!(safe_multiply_digit(Digit::MAX, 0 as Digit), vec![0 as Digit]);
}

#[test]
fn arithmetic_util_test_1digit_add() {
    assert_eq!(
        vec![2 as Digit],
        arbitrary_precision_add(&vec![1 as Digit], &vec![1 as Digit])
    );
}

#[test]
fn arithmetic_util_test_carry() {
    assert_eq!(
        vec![0 as Digit, 1 as Digit],
        arbitrary_precision_add(&vec![1 as Digit], &vec![Digit::MAX])
    );
    assert_eq!(
        vec![0 as Digit, 1 as Digit],
        arbitrary_precision_add(&vec![Digit::MAX], &vec![1 as Digit])
    );
}

#[test]
fn arithmetic_util_test_carry_multiple() {
    assert_eq!(
        vec![
            0 as Digit, 0 as Digit, 0 as Digit, 0 as Digit, 0 as Digit, 0 as Digit, 0 as Digit,
            0 as Digit, 2 as Digit
        ],
        arbitrary_precision_add(
            &vec![
                Digit::MAX,
                Digit::MAX,
                Digit::MAX,
                Digit::MAX,
                Digit::MAX,
                Digit::MAX,
                Digit::MAX,
                Digit::MAX,
                1 as Digit
            ],
            &vec![1 as Digit]
        )
    );
}

#[test]
fn arithmetic_util_test_normal_substitute() {
    assert_eq!(
        (vec![90 as Digit], false),
        arbitrary_precision_sub(&vec![100 as Digit], &vec![10 as Digit])
    );
}

#[test]
fn arithmetic_util_test_carrige_down() {
    assert_eq!(
        (vec![Digit::MAX], false),
        arbitrary_precision_sub(&vec![0 as Digit, 1 as Digit], &vec![1 as Digit])
    );
}

#[test]
fn arithmetic_util_test_result_negative() {
    assert_eq!(
        (vec![1 as Digit], true),
        arbitrary_precision_sub(&vec![0 as Digit], &vec![1 as Digit])
    );
}

#[test]
fn arithmetic_util_test_result_negative_carrige_down() {
    assert_eq!(
        (vec![1 as Digit], true),
        arbitrary_precision_sub(&vec![Digit::MAX], &vec![0 as Digit, 1 as Digit])
    );
}

#[test]
fn arithmetic_util_test_result_negative_carrige_down_multiple() {
    assert_eq!(
        (vec![1 as Digit], true),
        arbitrary_precision_sub(
            &vec![Digit::MAX, Digit::MAX],
            &vec![0 as Digit, 0 as Digit, 1 as Digit]
        )
    );
}

#[test]
fn utils_test_multiply() {
    assert_eq!(
        safe_multiply_digit(Digit::MAX, 2 as Digit),
        vec![Digit::MAX - 1 as Digit, 1]
    );
}

#[test]
fn utils_test_1digit_add() {
    assert_eq!(
        vec![2 as Digit],
        arbitrary_precision_add(&vec![1 as Digit], &vec![1 as Digit])
    );
}

#[test]
fn utils_test_carry() {
    assert_eq!(
        vec![0 as Digit, 1 as Digit],
        arbitrary_precision_add(&vec![1 as Digit], &vec![Digit::MAX])
    );
    assert_eq!(
        vec![0 as Digit, 1 as Digit],
        arbitrary_precision_add(&vec![Digit::MAX], &vec![1 as Digit])
    );
}

#[test]
fn utils_test_carry_multiple() {
    assert_eq!(
        vec![
            0 as Digit, 0 as Digit, 0 as Digit, 0 as Digit, 0 as Digit, 0 as Digit, 0 as Digit,
            0 as Digit, 2 as Digit
        ],
        arbitrary_precision_add(
            &vec![
                Digit::MAX,
                Digit::MAX,
                Digit::MAX,
                Digit::MAX,
                Digit::MAX,
                Digit::MAX,
                Digit::MAX,
                Digit::MAX,
                1 as Digit
            ],
            &vec![1 as Digit]
        )
    );
}

#[test]
fn utils_test_normal_substitute() {
    assert_eq!(
        (vec![90 as Digit], false),
        arbitrary_precision_sub(&vec![100 as Digit], &vec![10 as Digit])
    );
}

#[test]
fn utils_test_carrige_down() {
    assert_eq!(
        (vec![Digit::MAX], false),
        arbitrary_precision_sub(&vec![0 as Digit, 1 as Digit], &vec![1 as Digit])
    );
}

#[test]
fn utils_test_result_negative() {
    assert_eq!(
        (vec![1 as Digit], true),
        arbitrary_precision_sub(&vec![0 as Digit], &vec![1 as Digit])
    );
}

#[test]
fn utils_test_result_negative_carrige_down() {
    assert_eq!(
        (vec![1 as Digit], true),
        arbitrary_precision_sub(&vec![Digit::MAX], &vec![0 as Digit, 1 as Digit])
    );
}

#[test]
fn utils_test_result_negative_carrige_down_multiple() {
    assert_eq!(
        (vec![1 as Digit], true),
        arbitrary_precision_sub(
            &vec![Digit::MAX, Digit::MAX],
            &vec![0 as Digit, 0 as Digit, 1 as Digit]
        )
    );
}

/// Naive O(n^2) column-by-column reference multiplication, built from the
/// single-limb primitives only.
fn naive_mul(lhs: &[Digit], rhs: &[Digit]) -> Vec<Digit> {
    let mut acc = vec![0 as Digit];
    for i in 0..lhs.len() {
        for j in 0..rhs.len() {
            let part = safe_multiply_digit(lhs[i], rhs[j]);
            let shifted = shift_limbs(&part, i + j);
            acc = arbitrary_precision_add(&acc, &shifted);
        }
    }
    cut_upper_zeros(&acc)
}

fn pseudo_random_limbs(seed: &mut u128, len: usize) -> Vec<Digit> {
    let mut out = Vec::with_capacity(len);
    for _ in 0..len {
        *seed = seed
            .wrapping_mul(6364136223846793005)
            .wrapping_add(1442695040888963407);
        out.push(*seed);
    }
    out
}

#[test]
fn karatsuba_matches_naive_reference() {
    let mut seed: u128 = 0x1234_5678_9abc_def0;
    for &(la, lb) in &[
        (1usize, 1usize),
        (1, 2),
        (2, 1),
        (2, 2),
        (3, 5),
        (7, 7),
        (8, 3),
        (16, 16),
        (33, 17),
        (64, 64),
        (100, 90),
        (128, 128),
        (200, 150),
    ] {
        let a = pseudo_random_limbs(&mut seed, la);
        let b = pseudo_random_limbs(&mut seed, lb);
        assert_eq!(arbitrary_precision_mul(&a, &b), naive_mul(&a, &b));
    }
}

#[test]
fn karatsuba_mixed_difference_signs() {
    // high > low on the left, low < high on the right: both difference flags
    // set at once. (5 + 2B)(1 + 9B) = 5 + 47B + 18B^2.
    let lhs = vec![5 as Digit, 2 as Digit];
    let rhs = vec![1 as Digit, 9 as Digit];
    let expected = vec![5 as Digit, 47 as Digit, 18 as Digit];
    assert_eq!(arbitrary_precision_mul(&lhs, &rhs), expected);
    assert_eq!(arbitrary_precision_mul(&rhs, &lhs), expected);
}

#[test]
fn single_limb_product_extremes() {
    // (B-1)^2 = (B-2)B + 1
    assert_eq!(
        safe_multiply_digit(Digit::MAX, Digit::MAX),
        vec![1 as Digit, Digit::MAX - 1]
    );
    assert_eq!(safe_multiply_digit(1, Digit::MAX), vec![Digit::MAX]);
}

#[test]
fn magnitude_add_commutes_and_associates() {
    let mut seed: u128 = 42;
    for _ in 0..20 {
        let a = pseudo_random_limbs(&mut seed, 5);
        let b = pseudo_random_limbs(&mut seed, 9);
        let c = pseudo_random_limbs(&mut seed, 2);
        assert_eq!(
            arbitrary_precision_add(&a, &b),
            arbitrary_precision_add(&b, &a)
        );
        assert_eq!(
            arbitrary_precision_mul(&a, &b),
            arbitrary_precision_mul(&b, &a)
        );
        let ab_c = arbitrary_precision_add(&arbitrary_precision_add(&a, &b), &c);
        let a_bc = arbitrary_precision_add(&a, &arbitrary_precision_add(&b, &c));
        assert_eq!(ab_c, a_bc);
    }
}

#[test]
fn halving_floors_the_value() {
    assert_eq!(halve_limbs(&vec![7 as Digit]), vec![3 as Digit]);
    assert_eq!(halve_limbs(&vec![0 as Digit]), vec![0 as Digit]);
    // (2^128 + 1) / 2 = 2^127
    assert_eq!(
        halve_limbs(&vec![1 as Digit, 1 as Digit]),
        vec![1u128 << 127]
    );
    // (3*2^128 + 2) / 2 = 2^128 + 2^127 + 1
    assert_eq!(
        halve_limbs(&vec![2 as Digit, 3 as Digit]),
        vec![(1u128 << 127) + 1, 1 as Digit]
    );
}

#[test]
fn trimming_and_shifting() {
    assert_eq!(
        cut_upper_zeros(&vec![7 as Digit, 0 as Digit, 0 as Digit]),
        vec![7 as Digit]
    );
    assert_eq!(cut_upper_zeros(&vec![0 as Digit, 0 as Digit]), vec![0 as Digit]);
    assert_eq!(
        shift_limbs(&vec![3 as Digit], 2),
        vec![0 as Digit, 0 as Digit, 3 as Digit]
    );
    assert_eq!(
        drop_lower_limbs(&vec![1 as Digit, 2 as Digit, 3 as Digit], 2),
        vec![3 as Digit]
    );
    assert_eq!(drop_lower_limbs(&vec![5 as Digit], 3), vec![0 as Digit]);
}
