use primes::{nth_prime, PrimeError, PrimeGenerator};

#[test]
fn nth_prime_of_zero_is_an_invalid_argument() {
    assert_eq!(nth_prime(0), Err(PrimeError::InvalidArgument));
}

#[test]
fn nth_prime_first_values() {
    assert_eq!(nth_prime(1), Ok(2));
    assert_eq!(nth_prime(2), Ok(3));
    assert_eq!(nth_prime(3), Ok(5));
    assert_eq!(nth_prime(6), Ok(13));
    assert_eq!(nth_prime(10), Ok(29));
}

#[test]
fn nth_prime_further_values() {
    assert_eq!(nth_prime(100), Ok(541));
    assert_eq!(nth_prime(1000), Ok(7919));
    assert_eq!(nth_prime(10_000), Ok(104_729));
}

#[test]
fn prime_generator_starts_at_five() {
    let mut source = PrimeGenerator::new();
    assert_eq!(source.next(), Some(5));
    assert_eq!(source.next(), Some(7));
    assert_eq!(source.next(), Some(11));
    assert_eq!(source.next(), Some(13));
}

#[test]
fn prime_generator_yields_the_primes_from_the_third_on() {
    let steps = 500;
    let mut source = PrimeGenerator::new();
    for i in 0..steps {
        assert_eq!(source.next().ok_or(PrimeError::Overflow), nth_prime(i + 3), "step {}", i);
    }
}

#[test]
fn prime_generators_do_not_share_what_they_found() {
    let mut first = PrimeGenerator::new();
    for _ in 0..10 {
        first.next();
    }
    let mut second = PrimeGenerator::new();
    assert_eq!(second.next(), Some(5));
    assert_eq!(first.next(), Some(41));
}
