use num_bigint::ToBigInt;

use zdm::math::{
    factor_power_2, gcd, generate_random_prime, is_prime, miller_test, multiplicative_inverse,
    MathError,
};

#[test]
fn gcd_of_5_and_8_is_1() {
    let a = 5.to_bigint().unwrap();
    let b = 8.to_bigint().unwrap();

    assert_eq!(gcd(&a, &b), 1.to_bigint().unwrap());
}

#[test]
fn gcd_of_8_and_5_is_1() {
    let a = 8.to_bigint().unwrap();
    let b = 5.to_bigint().unwrap();

    assert_eq!(gcd(&a, &b), 1.to_bigint().unwrap());
}

#[test]
fn gcd_of_8_and_4_is_4() {
    let a = 8.to_bigint().unwrap();
    let b = 4.to_bigint().unwrap();

    assert_eq!(gcd(&a, &b), 4.to_bigint().unwrap());
}

#[test]
fn gcd_with_zero_leaves_the_other_argument() {
    let a = 8.to_bigint().unwrap();
    let zero = 0.to_bigint().unwrap();

    assert_eq!(gcd(&a, &zero), 8.to_bigint().unwrap());
    assert_eq!(gcd(&zero, &a), 8.to_bigint().unwrap());
    assert_eq!(gcd(&zero, &zero), 0.to_bigint().unwrap());
}

#[test]
fn gcd_is_symmetric_on_samples() {
    for a in 0u64..20 {
        for b in 0u64..20 {
            let x = a.to_bigint().unwrap();
            let y = b.to_bigint().unwrap();
            assert_eq!(gcd(&x, &y), gcd(&y, &x));
        }
    }
}

#[test]
fn factor_power_2_of_8_is_3() {
    let n = 8.to_bigint().unwrap();
    assert_eq!(factor_power_2(&n), (1.to_bigint().unwrap(), 3));
}

#[test]
fn factor_power_2_of_10_is_1() {
    let n = 10.to_bigint().unwrap();
    assert_eq!(factor_power_2(&n), (5.to_bigint().unwrap(), 1));
}

#[test]
fn factor_power_2_of_odd_number_is_0() {
    let n = 15.to_bigint().unwrap();
    assert_eq!(factor_power_2(&n), (15.to_bigint().unwrap(), 0));
}

#[test]
fn multiplicative_inverse_of_3_and_11_is_4() {
    let a = 3.to_bigint().unwrap();
    let b = 11.to_bigint().unwrap();

    assert_eq!(multiplicative_inverse(&a, &b), Ok(4.to_bigint().unwrap()));
}

#[test]
fn multiplicative_inverse_of_10_and_17_is_12() {
    let a = 10.to_bigint().unwrap();
    let b = 17.to_bigint().unwrap();

    assert_eq!(multiplicative_inverse(&a, &b), Ok(12.to_bigint().unwrap()));
}

#[test]
fn multiplicative_inverse_of_5_and_8_is_5() {
    let a = 5.to_bigint().unwrap();
    let b = 8.to_bigint().unwrap();

    assert_eq!(multiplicative_inverse(&a, &b), Ok(5.to_bigint().unwrap()));
}

#[test]
fn multiplicative_inverse_of_non_coprime_pair_is_an_error() {
    let a = 6.to_bigint().unwrap();
    let b = 8.to_bigint().unwrap();

    assert_eq!(multiplicative_inverse(&a, &b), Err(MathError::NotInvertible));
}

#[test]
fn multiplicative_inverse_times_argument_is_1_mod_b_on_samples() {
    for a in 1u64..40 {
        for b in 2u64..40 {
            let x = a.to_bigint().unwrap();
            let y = b.to_bigint().unwrap();
            if gcd(&x, &y) == 1.to_bigint().unwrap() {
                let d = multiplicative_inverse(&x, &y).unwrap();
                assert_eq!((&x * &d) % &y, 1.to_bigint().unwrap());
            } else {
                assert_eq!(multiplicative_inverse(&x, &y), Err(MathError::NotInvertible));
            }
        }
    }
}

#[test]
fn miller_test_accepts_7_with_base_2() {
    let n = 7.to_bigint().unwrap();
    assert!(miller_test(&n, 2));
}

#[test]
fn miller_test_rejects_9_with_base_2() {
    let n = 9.to_bigint().unwrap();
    assert!(!miller_test(&n, 2));
}

#[test]
fn is_prime_agrees_with_ground_truth_on_small_table() {
    let table: [(u64, bool); 11] = [
        (0, false),
        (1, false),
        (2, true),
        (4, false),
        (5, true),
        (7, true),
        (9, false),
        (10, false),
        (13, true),
        (15, false),
        (97, true),
    ];
    for (value, expected) in table {
        let p = value.to_bigint().unwrap();
        assert_eq!(is_prime(&p, 5), expected);
    }
}

#[test]
fn generate_random_prime_is_not_negative() {
    let bits = 128;
    let prime = generate_random_prime(bits).unwrap();
    assert!(prime > 0.to_bigint().unwrap());
}

#[test]
fn generate_random_prime_passes_its_own_test() {
    let bits = 128;
    let prime = generate_random_prime(bits).unwrap();
    assert!(prime > 2.to_bigint().unwrap());
    assert_eq!(&prime % 2.to_bigint().unwrap(), 1.to_bigint().unwrap());
    assert!(is_prime(&prime, bits));
}
