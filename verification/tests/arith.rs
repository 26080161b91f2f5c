use primes::arith::integer_sqrt;

#[test]
fn integer_sqrt_of_small_numbers() {
    assert_eq!(integer_sqrt(0), 0);
    assert_eq!(integer_sqrt(1), 1);
    assert_eq!(integer_sqrt(2), 1);
    assert_eq!(integer_sqrt(3), 1);
    assert_eq!(integer_sqrt(4), 2);
    assert_eq!(integer_sqrt(8), 2);
    assert_eq!(integer_sqrt(9), 3);
}

#[test]
fn integer_sqrt_around_squares() {
    for r in 1..2_000usize {
        assert_eq!(integer_sqrt(r * r - 1), r - 1);
        assert_eq!(integer_sqrt(r * r), r);
        assert_eq!(integer_sqrt(r * r + 1), if r == 1 { 1 } else { r });
    }
}

#[test]
fn integer_sqrt_of_a_million() {
    assert_eq!(integer_sqrt(999_999), 999);
    assert_eq!(integer_sqrt(1_000_000), 1000);
    assert_eq!(integer_sqrt(10_000_000), 3162);
}

#[test]
fn integer_sqrt_at_the_end_of_the_range() {
    let root = integer_sqrt(usize::MAX);
    assert_eq!(root.checked_mul(root).map(|square| square <= usize::MAX), Some(true));
    assert_eq!((root + 1).checked_mul(root + 1), None);
}
