use poulpy_blck_ecd::algebra::number_theory::{
    checked_pow2, distinct_prime_factors, is_power_of_two, is_prime, mul_mod, next_power_of_two,
    pow_mod, primitive_root,
};
use poulpy_blck_ecd::error::Error;

#[test]
fn primality_by_trial_division() {
    assert!(!is_prime(0));
    assert!(!is_prime(1));
    assert!(is_prime(2));
    assert!(is_prime(3));
    assert!(!is_prime(9));
    assert!(!is_prime(25));
    assert!(is_prime(97));
    assert!(!is_prime(561));
    assert!(is_prime(65_537));
}

#[test]
fn modular_products_and_powers() {
    assert_eq!(mul_mod(7, 8, 5), 1);
    assert_eq!(mul_mod(usize::MAX, usize::MAX, 7), ((usize::MAX as u128 * usize::MAX as u128) % 7) as usize);
    assert_eq!(pow_mod(3, 4, 7), 4);
    assert_eq!(pow_mod(2, 10, 1000), 24);
    assert_eq!(pow_mod(5, 0, 1), 1);
    assert_eq!(pow_mod(5, 3, 1), 0);
}

#[test]
fn distinct_prime_factors_in_order() {
    assert_eq!(distinct_prime_factors(0), Vec::<usize>::new());
    assert_eq!(distinct_prime_factors(1), Vec::<usize>::new());
    assert_eq!(distinct_prime_factors(12), vec![2, 3]);
    assert_eq!(distinct_prime_factors(97), vec![97]);
    assert_eq!(distinct_prime_factors(360), vec![2, 3, 5]);
    assert_eq!(distinct_prime_factors(49), vec![7]);
    assert_eq!(distinct_prime_factors(2310), vec![2, 3, 5, 7, 11]);
    assert_eq!(distinct_prime_factors(1024), vec![2]);
    assert_eq!(distinct_prime_factors(2 * 1_000_003), vec![2, 1_000_003]);
}

#[test]
fn least_primitive_roots() {
    assert_eq!(primitive_root(2), Ok(1));
    assert_eq!(primitive_root(3), Ok(2));
    assert_eq!(primitive_root(5), Ok(2));
    assert_eq!(primitive_root(7), Ok(3));
    assert_eq!(primitive_root(11), Ok(2));
    assert_eq!(primitive_root(23), Ok(5));
    assert_eq!(primitive_root(4), Err(Error::NotPrime));
    assert_eq!(primitive_root(1), Err(Error::NotPrime));
}

#[test]
fn powers_of_two() {
    assert!(!is_power_of_two(0));
    assert!(is_power_of_two(1));
    assert!(is_power_of_two(64));
    assert!(!is_power_of_two(96));
    assert_eq!(next_power_of_two(0), 1);
    assert_eq!(next_power_of_two(1), 1);
    assert_eq!(next_power_of_two(3), 4);
    assert_eq!(next_power_of_two(8), 8);
    assert_eq!(next_power_of_two(9), 16);
    assert_eq!(checked_pow2(5), Some(32));
    assert_eq!(checked_pow2(usize::BITS as usize), None);
}
