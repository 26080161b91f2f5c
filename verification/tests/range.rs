use primes::PrimeRange;

fn drain(mut source: PrimeRange) -> Vec<usize> {
    let mut seen = Vec::new();
    while let Some(p) = source.next() {
        seen.push(p);
    }
    seen
}

#[test]
fn prime_range_from_ten_to_thirty() {
    assert_eq!(drain(PrimeRange::new(10, 30)), vec![11, 13, 17, 19, 23, 29]);
}

#[test]
fn prime_range_never_yields_two() {
    assert_eq!(drain(PrimeRange::new(2, 5)), vec![3, 5]);
    assert_eq!(drain(PrimeRange::new(0, 5)), vec![3, 5]);
    assert_eq!(drain(PrimeRange::new(1, 2)), Vec::<usize>::new());
    assert_eq!(drain(PrimeRange::new(2, 2)), Vec::<usize>::new());
}

#[test]
fn prime_range_includes_both_ends() {
    assert_eq!(drain(PrimeRange::new(3, 3)), vec![3]);
    assert_eq!(drain(PrimeRange::new(11, 29)), vec![11, 13, 17, 19, 23, 29]);
    assert_eq!(drain(PrimeRange::new(12, 28)), vec![13, 17, 19, 23]);
}

#[test]
fn prime_range_with_the_bounds_the_wrong_way_round_is_empty() {
    assert_eq!(drain(PrimeRange::new(30, 10)), Vec::<usize>::new());
    assert_eq!(drain(PrimeRange::new(usize::MAX, 10)), Vec::<usize>::new());
    assert_eq!(drain(PrimeRange::new(usize::MAX - 1, 10)), Vec::<usize>::new());
}

#[test]
fn prime_range_stays_exhausted() {
    let mut source = PrimeRange::new(20, 24);
    assert_eq!(source.next(), Some(23));
    assert_eq!(source.next(), None);
    assert_eq!(source.next(), None);
    assert_eq!(source.next(), None);
}

#[test]
fn prime_range_yields_the_primes_of_its_base_too() {
    assert_eq!(
        drain(PrimeRange::new(0, 100)),
        vec![
            3, 5, 7, 11, 13, 17, 19, 23, 29, 31, 37, 41, 43, 47, 53, 59, 61, 67, 71, 73, 79, 83,
            89, 97
        ]
    );
}

#[test]
fn prime_range_far_from_zero() {
    assert_eq!(
        drain(PrimeRange::new(1_000_000, 1_000_100)),
        vec![1_000_003, 1_000_033, 1_000_037, 1_000_039, 1_000_081, 1_000_099]
    );
}

#[test]
fn prime_range_agrees_with_trial_division() {
    let mut expected = Vec::new();
    for n in 3..=5_000usize {
        let mut d = 2;
        let mut prime = true;
        while d * d <= n {
            if n % d == 0 {
                prime = false;
                break;
            }
            d += 1;
        }
        if prime {
            expected.push(n);
        }
    }
    assert_eq!(drain(PrimeRange::new(0, 5_000)), expected);
}
