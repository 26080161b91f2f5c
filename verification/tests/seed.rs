use primes::{extend_seed_primes, seed_primes};

fn primes_with_square_within(n: usize) -> Vec<usize> {
    let mut found = vec![2, 3];
    let mut c = 5;
    while c * c <= n {
        let mut d = 2;
        let mut prime = true;
        while d * d <= c {
            if c % d == 0 {
                prime = false;
                break;
            }
            d += 1;
        }
        if prime {
            found.push(c);
        }
        c += 1;
    }
    found
}

#[test]
fn seed_primes_always_holds_two_and_three() {
    for n in 0..25usize {
        assert_eq!(seed_primes(n), vec![2, 3], "n = {}", n);
    }
}

#[test]
fn seed_primes_stops_where_the_square_exceeds_the_bound() {
    assert_eq!(seed_primes(25), vec![2, 3, 5]);
    assert_eq!(seed_primes(48), vec![2, 3, 5]);
    assert_eq!(seed_primes(49), vec![2, 3, 5, 7]);
    assert_eq!(seed_primes(120), vec![2, 3, 5, 7]);
    assert_eq!(seed_primes(121), vec![2, 3, 5, 7, 11]);
    assert_eq!(seed_primes(1000), vec![2, 3, 5, 7, 11, 13, 17, 19, 23, 29, 31]);
}

#[test]
fn seed_primes_of_a_million() {
    let base = seed_primes(1_000_000);
    assert_eq!(base.len(), 168);
    assert_eq!(base[167], 997);
    assert_eq!(base, primes_with_square_within(1_000_000));
}

#[test]
fn seed_primes_for_many_bounds() {
    for n in 0..2_000usize {
        assert_eq!(seed_primes(n), primes_with_square_within(n), "n = {}", n);
    }
}

#[test]
fn extend_seed_primes_returns_the_new_primes_only() {
    let base = seed_primes(100);
    assert_eq!(base, vec![2, 3, 5, 7]);
    assert_eq!(extend_seed_primes(&base, 1000), vec![11, 13, 17, 19, 23, 29, 31]);
}

#[test]
fn extend_seed_primes_to_a_smaller_bound_is_empty() {
    let base = seed_primes(1000);
    assert_eq!(extend_seed_primes(&base, 100), Vec::<usize>::new());
    assert_eq!(extend_seed_primes(&base, 1000), Vec::<usize>::new());
    assert_eq!(extend_seed_primes(&base, 0), Vec::<usize>::new());
}

#[test]
fn extend_seed_primes_from_the_smallest_base() {
    let base = seed_primes(0);
    assert_eq!(extend_seed_primes(&base, 24), Vec::<usize>::new());
    assert_eq!(extend_seed_primes(&base, 25), vec![5]);
    assert_eq!(extend_seed_primes(&base, 200), vec![5, 7, 11, 13]);
}

#[test]
fn seed_then_extend_equals_seed_of_the_larger_bound() {
    for n in [0usize, 1, 8, 9, 10, 25, 100, 1_000, 12_345] {
        for bigger in [n, n + 1, n + 16, 4 * n + 30, 100 * n + 1000, 1_000_000] {
            if bigger < n {
                continue;
            }
            let mut base = seed_primes(n);
            let mut ext = extend_seed_primes(&base, bigger);
            base.append(&mut ext);
            assert_eq!(base, seed_primes(bigger), "n = {}, bigger = {}", n, bigger);
        }
    }
}

#[test]
fn extending_twice_equals_extending_once() {
    let mut base = seed_primes(1_000);
    let mut first = extend_seed_primes(&base, 100_000);
    base.append(&mut first);
    let mut second = extend_seed_primes(&base, 10_000_000);
    base.append(&mut second);
    assert_eq!(base, seed_primes(10_000_000));
}
