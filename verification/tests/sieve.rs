use primes::{seed_primes, sieve, sieve0, PrimeSieve};

fn primes_up_to_by_division(bound: usize) -> Vec<usize> {
    let mut found = Vec::new();
    for n in 2..=bound {
        let mut d = 2;
        let mut prime = true;
        while d * d <= n {
            if n % d == 0 {
                prime = false;
                break;
            }
            d += 1;
        }
        if prime {
            found.push(n);
        }
    }
    found
}

fn floor_sqrt(n: usize) -> usize {
    let mut r = 0;
    while (r + 1) * (r + 1) <= n {
        r += 1;
    }
    r
}

#[test]
fn sieve0_floors_its_range_at_four() {
    assert_eq!(sieve0(0), vec![2, 3]);
    assert_eq!(sieve0(1), vec![2, 3]);
    assert_eq!(sieve0(4), vec![2, 3]);
}

#[test]
fn sieve0_excludes_its_upper_end() {
    assert_eq!(sieve0(5), vec![2, 3]);
    assert_eq!(sieve0(6), vec![2, 3, 5]);
    assert_eq!(sieve0(29), vec![2, 3, 5, 7, 11, 13, 17, 19, 23]);
    assert_eq!(sieve0(30), vec![2, 3, 5, 7, 11, 13, 17, 19, 23, 29]);
}

#[test]
fn sieve0_of_a_thousand() {
    let found = sieve0(1000);
    assert_eq!(found.len(), 168);
    assert_eq!(found, primes_up_to_by_division(999));
}

#[test]
fn sieve_always_holds_two_and_three() {
    for n in 0..25usize {
        assert_eq!(sieve(n), vec![2, 3], "n = {}", n);
    }
}

#[test]
fn sieve_includes_a_prime_square_root() {
    assert_eq!(sieve(25), vec![2, 3, 5]);
    assert_eq!(sieve(48), vec![2, 3, 5]);
    assert_eq!(sieve(49), vec![2, 3, 5, 7]);
    assert_eq!(sieve(121), vec![2, 3, 5, 7, 11]);
}

#[test]
fn sieve_of_small_bounds_is_the_primes_up_to_the_root() {
    for n in 9..3_000usize {
        assert_eq!(sieve(n), primes_up_to_by_division(floor_sqrt(n)), "n = {}", n);
    }
}

#[test]
fn sieve_with_one_window_of_full_size() {
    let found = sieve(1_000_000);
    assert_eq!(found.len(), 168);
    assert_eq!(found, primes_up_to_by_division(1000));
}

#[test]
fn sieve_with_a_second_window_of_one_number() {
    assert_eq!(sieve(1_002_001), primes_up_to_by_division(1001));
}

#[test]
fn sieve_with_a_prime_at_the_end_of_the_last_window() {
    let found = sieve(1009 * 1009);
    assert_eq!(found.len(), 169);
    assert_eq!(found[168], 1009);
    assert_eq!(sieve(1009 * 1009 - 1).len(), 168);
}

#[test]
fn sieve_with_windows_that_end_on_a_multiple_of_the_window_size() {
    assert_eq!(sieve(2000 * 2000), primes_up_to_by_division(2000));
    assert_eq!(sieve(1999 * 1999), primes_up_to_by_division(1999));
    assert_eq!(sieve(2003 * 2003), primes_up_to_by_division(2003));
}

#[test]
fn sieve_with_several_windows() {
    let found = sieve(10_000_000);
    assert_eq!(found.len(), 446);
    assert_eq!(found[445], 3137);
    assert_eq!(found, primes_up_to_by_division(3162));
    assert_eq!(sieve(100_000_000), primes_up_to_by_division(10_000));
}

#[test]
fn sieve_is_ascending_without_duplicates() {
    let found = sieve(50_000_000);
    for i in 1..found.len() {
        assert!(found[i - 1] < found[i]);
    }
}

#[test]
fn sieve_agrees_with_seed_primes() {
    for n in [0usize, 3, 4, 8, 9, 24, 25, 1_000, 999_999, 1_000_000, 4_000_000, 25_000_000] {
        assert_eq!(sieve(n), seed_primes(n), "n = {}", n);
    }
}

#[test]
fn prime_sieve_yields_the_sieve_in_order() {
    let mut source = PrimeSieve::new(1000);
    let mut seen = Vec::new();
    while let Some(p) = source.next() {
        seen.push(p);
    }
    assert_eq!(seen, vec![2, 3, 5, 7, 11, 13, 17, 19, 23, 29, 31]);
}

#[test]
fn prime_sieve_stays_exhausted() {
    let mut source = PrimeSieve::new(0);
    assert_eq!(source.next(), Some(2));
    assert_eq!(source.next(), Some(3));
    assert_eq!(source.next(), None);
    assert_eq!(source.next(), None);
    assert_eq!(source.next(), None);
}

#[test]
fn prime_sieve_over_several_windows() {
    let mut source = PrimeSieve::new(10_000_000);
    let mut count = 0;
    let mut last = 0;
    while let Some(p) = source.next() {
        assert!(p > last);
        last = p;
        count += 1;
    }
    assert_eq!(count, 446);
    assert_eq!(last, 3137);
}
