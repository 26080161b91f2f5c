use primes::{is_prime, is_prime_py, seed_primes};

fn has_no_divisor_up_to_root(n: usize) -> bool {
    let mut d = 2;
    while d * d <= n {
        if n % d == 0 {
            return false;
        }
        d += 1;
    }
    n >= 2
}

#[test]
fn is_prime_py_agrees_with_trial_division_up_to_ten_thousand() {
    for n in 2..=10_000usize {
        assert_eq!(is_prime_py(n), has_no_divisor_up_to_root(n), "n = {}", n);
    }
}

#[test]
fn is_prime_py_rejects_zero_and_one() {
    assert!(!is_prime_py(0));
    assert!(!is_prime_py(1));
}

#[test]
fn is_prime_py_accepts_two_and_three() {
    assert!(is_prime_py(2));
    assert!(is_prime_py(3));
}

#[test]
fn is_prime_py_just_below_the_seed_limit() {
    assert!(is_prime_py(999_983));
    assert!(!is_prime_py(999_999));
}

#[test]
fn is_prime_py_at_the_seed_limit() {
    assert!(!is_prime_py(1_000_000));
    assert!(!is_prime_py(1_000_001));
    assert!(is_prime_py(1_000_003));
}

#[test]
fn is_prime_py_grows_its_base_for_large_primes() {
    assert!(is_prime_py(1_000_000_007));
    assert!(is_prime_py(2_147_483_647));
    assert!(is_prime_py(4_294_967_291));
}

#[test]
fn is_prime_py_finds_a_large_smallest_factor() {
    assert!(!is_prime_py(4_294_967_297));
    assert!(!is_prime_py(999_983 * 1_000_003));
    assert!(!is_prime_py(1_000_003 * 1_000_033));
    assert!(!is_prime_py(1_000_003 * 1_000_003));
}

#[test]
fn is_prime_small_cases_ignore_the_base() {
    let empty: Vec<usize> = Vec::new();
    assert!(!is_prime(0, &empty));
    assert!(!is_prime(1, &empty));
    assert!(is_prime(2, &empty));
    assert!(is_prime(3, &empty));
}

#[test]
fn is_prime_returns_false_on_the_first_divisor() {
    let base = vec![2, 3, 5, 7];
    assert!(!is_prime(4, &base));
    assert!(!is_prime(9, &base));
    assert!(!is_prime(25, &base));
    assert!(!is_prime(49, &base));
    assert!(!is_prime(91, &base));
}

#[test]
fn is_prime_stops_before_an_element_whose_square_is_too_large() {
    let base = vec![2, 3, 5, 7];
    assert!(is_prime(5, &base));
    assert!(is_prime(7, &base));
    assert!(is_prime(97, &base));
    assert!(is_prime(29, &vec![2, 3, 5, 29]));
}

#[test]
fn is_prime_with_too_short_a_base_may_accept_a_composite() {
    assert!(is_prime(121, &vec![2, 3, 5, 7]));
    assert!(is_prime(35, &Vec::new()));
}

#[test]
fn is_prime_with_seed_base_agrees_with_trial_division() {
    for n in 0..5_000usize {
        let base = seed_primes(n);
        assert_eq!(is_prime(n, &base), has_no_divisor_up_to_root(n), "n = {}", n);
    }
}

#[test]
fn is_prime_with_one_base_for_all_candidates_up_to_its_bound() {
    let base = seed_primes(10_000);
    for n in 0..=10_000usize {
        assert_eq!(is_prime(n, &base), has_no_divisor_up_to_root(n), "n = {}", n);
    }
}
