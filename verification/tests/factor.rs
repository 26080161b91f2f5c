use primes::{is_prime_py, prime_factors, PrimeError};

#[test]
fn prime_factors_of_zero_is_an_invalid_argument() {
    assert_eq!(prime_factors(0), Err(PrimeError::InvalidArgument));
}

#[test]
fn prime_factors_of_one_is_empty() {
    assert_eq!(prime_factors(1), Ok(Vec::new()));
}

#[test]
fn prime_factors_of_sixty() {
    assert_eq!(prime_factors(60), Ok(vec![2, 2, 3, 5]));
}

#[test]
fn prime_factors_of_a_prime_is_the_prime() {
    assert_eq!(prime_factors(2), Ok(vec![2]));
    assert_eq!(prime_factors(3), Ok(vec![3]));
    assert_eq!(prime_factors(97), Ok(vec![97]));
    assert_eq!(prime_factors(1_000_003), Ok(vec![1_000_003]));
}

#[test]
fn prime_factors_repeats_a_factor_as_often_as_it_divides() {
    assert_eq!(prime_factors(1024), Ok(vec![2; 10]));
    assert_eq!(prime_factors(729), Ok(vec![3; 6]));
    assert_eq!(prime_factors(49), Ok(vec![7, 7]));
}

#[test]
fn prime_factors_ends_with_a_factor_above_the_root() {
    assert_eq!(prime_factors(2 * 97), Ok(vec![2, 97]));
    assert_eq!(prime_factors(6 * 1_000_003), Ok(vec![2, 3, 1_000_003]));
}

#[test]
fn prime_factors_of_a_product_of_two_large_primes() {
    assert_eq!(prime_factors(7919 * 104_729), Ok(vec![7919, 104_729]));
}

#[test]
fn prime_factors_multiply_to_the_number() {
    for n in 1..=3_000usize {
        let factors = prime_factors(n).unwrap();
        assert_eq!(factors.iter().product::<usize>(), n, "n = {}", n);
    }
}

#[test]
fn prime_factors_are_ascending_primes() {
    for n in 1..=3_000usize {
        let factors = prime_factors(n).unwrap();
        for i in 0..factors.len() {
            assert!(is_prime_py(factors[i]), "n = {}", n);
            if i > 0 {
                assert!(factors[i - 1] <= factors[i], "n = {}", n);
            }
        }
    }
}
