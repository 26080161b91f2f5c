//! Divisibility, primality and integer square roots over mathematical integers.

use vstd::arithmetic::div_mod::{
    lemma_fundamental_div_mod, lemma_mod_multiples_basic, lemma_mod_self_0, lemma_small_mod,
};
use vstd::prelude::*;

verus! {

/// `d` is a positive divisor of `n`.
pub open spec fn divides(d: int, n: int) -> bool {
    d > 0 && n % d == 0
}

/// `n` is a prime number: at least 2 and without a divisor strictly between 1 and `n`.
pub open spec fn prime(n: int) -> bool {
    n >= 2 && forall|d: int| 2 <= d < n ==> !#[trigger] divides(d, n)
}

/// The largest `r` with `r * r <= n` (and 0 for negative `n`), built by counting upwards.
pub open spec fn isqrt(n: int) -> int
    decreases n,
{
    if n <= 0 {
        0
    } else {
        let r = isqrt(n - 1);
        if (r + 1) * (r + 1) <= n {
            r + 1
        } else {
            r
        }
    }
}

/// Brute force finds no divisor of `n`: no `d` from 2 to the integer square root of `n`
/// divides it.
pub open spec fn survives_trial_division(n: int) -> bool {
    forall|d: int| 2 <= d <= isqrt(n) ==> !#[trigger] divides(d, n)
}

/// The smallest divisor of `n` that is at least `d`, or `n` itself if there is none below it.
pub open spec fn least_divisor_from(n: int, d: int) -> int
    decreases n - d,
{
    if d >= n {
        n
    } else if divides(d, n) {
        d
    } else {
        least_divisor_from(n, d + 1)
    }
}

/// The smallest divisor of `n` other than 1.
pub open spec fn least_divisor(n: int) -> int {
    least_divisor_from(n, 2)
}

/// Squaring is monotone on the non-negative integers.
pub proof fn lemma_square_monotone(a: int, b: int)
    requires
        0 <= a <= b,
    ensures
        a * a <= b * b,
{
    assert(a * a <= b * b) by (nonlinear_arith)
        requires
            0 <= a <= b,
    ;
}

/// Squaring is strictly monotone on the non-negative integers.
pub proof fn lemma_square_strictly_monotone(a: int, b: int)
    requires
        0 <= a < b,
    ensures
        a * a < b * b,
{
    assert(a * a < b * b) by (nonlinear_arith)
        requires
            0 <= a < b,
    ;
}

/// For a positive `d`, `d * d <= n` can be decided by one division: `d <= n / d`.
pub proof fn lemma_square_le_by_division(d: int, n: int)
    requires
        d > 0,
        n >= 0,
    ensures
        d <= n / d <==> d * d <= n,
{
    lemma_fundamental_div_mod(n, d);
    let q = n / d;
    let r = n % d;
    assert(0 <= r < d);
    if d <= q {
        assert(d * d <= d * q) by (nonlinear_arith)
            requires
                0 < d <= q,
        ;
    } else {
        assert(d * q + d <= d * d) by (nonlinear_arith)
            requires
                q + 1 <= d,
                0 < d,
        ;
    }
}

/// A positive number divides each of its multiples.
pub proof fn lemma_divides_multiple(d: int, k: int)
    requires
        d > 0,
    ensures
        divides(d, d * k),
        divides(d, k * d),
{
    lemma_mod_multiples_basic(k, d);
    assert(d * k == k * d) by (nonlinear_arith);
}

/// A multiple is its divisor times the quotient.
pub proof fn lemma_divides_quotient(d: int, n: int)
    requires
        divides(d, n),
    ensures
        n == d * (n / d),
{
    lemma_fundamental_div_mod(n, d);
}

/// The next multiple after a multiple of `d` lies `d` further on.
pub proof fn lemma_divides_next_multiple(d: int, a: int)
    requires
        divides(d, a),
    ensures
        divides(d, a + d),
{
    lemma_divides_quotient(d, a);
    let q = a / d;
    assert(a + d == d * (q + 1)) by (nonlinear_arith)
        requires
            a == d * q,
    ;
    lemma_divides_multiple(d, q + 1);
}

/// Divisibility is transitive.
pub proof fn lemma_divides_transitive(a: int, b: int, c: int)
    requires
        divides(a, b),
        divides(b, c),
    ensures
        divides(a, c),
{
    lemma_divides_quotient(a, b);
    lemma_divides_quotient(b, c);
    let j = b / a;
    let k = c / b;
    assert(c == a * (j * k)) by (nonlinear_arith)
        requires
            c == b * k,
            b == a * j,
    ;
    lemma_divides_multiple(a, j * k);
}

/// A divisor of a positive number is no larger than that number.
pub proof fn lemma_divisor_le(d: int, n: int)
    requires
        divides(d, n),
        n > 0,
    ensures
        d <= n,
{
    lemma_divides_quotient(d, n);
    let q = n / d;
    assert(d <= n) by (nonlinear_arith)
        requires
            n == d * q,
            d > 0,
            n > 0,
    ;
}

/// The quotient by a proper divisor is again a proper divisor.
pub proof fn lemma_cofactor(d: int, n: int)
    requires
        divides(d, n),
        2 <= d < n,
    ensures
        divides(n / d, n),
        2 <= n / d < n,
        d * (n / d) == n,
{
    lemma_divides_quotient(d, n);
    let q = n / d;
    assert(2 <= q < n) by (nonlinear_arith)
        requires
            n == d * q,
            2 <= d < n,
    ;
    lemma_divides_multiple(q, d);
}

proof fn lemma_least_divisor_from(n: int, d: int)
    requires
        2 <= d <= n,
        forall|e: int| 2 <= e < d ==> !#[trigger] divides(e, n),
    ensures
        d <= least_divisor_from(n, d) <= n,
        divides(least_divisor_from(n, d), n),
        forall|e: int| 2 <= e < least_divisor_from(n, d) ==> !#[trigger] divides(e, n),
    decreases n - d,
{
    if d >= n {
        lemma_mod_self_0(n);
    } else if divides(d, n) {
    } else {
        lemma_least_divisor_from(n, d + 1);
    }
}

/// The least divisor above 1 of a number `n >= 2` is a prime, no divisor lies below it, it is
/// `n` itself exactly when `n` is prime, and otherwise its square does not exceed `n`.
pub proof fn lemma_least_divisor(n: int)
    requires
        n >= 2,
    ensures
        2 <= least_divisor(n) <= n,
        divides(least_divisor(n), n),
        forall|e: int| 2 <= e < least_divisor(n) ==> !#[trigger] divides(e, n),
        prime(least_divisor(n)),
        prime(n) <==> least_divisor(n) == n,
        !prime(n) ==> least_divisor(n) * least_divisor(n) <= n,
{
    lemma_least_divisor_from(n, 2);
    let l = least_divisor(n);
    assert forall|e: int| 2 <= e < l implies !#[trigger] divides(e, l) by {
        if divides(e, l) {
            lemma_divides_transitive(e, l, n);
        }
    }
    if l < n {
        lemma_cofactor(l, n);
        let q = n / l;
        assert(l <= q) by {
            if q < l {
                assert(divides(q, n));
            }
        }
        assert(l * l <= n) by (nonlinear_arith)
            requires
                0 < l <= q,
                l * q == n,
        ;
    }
}

/// A number `n >= 2` is prime exactly when trial division by every `d >= 2` with
/// `d * d <= n` finds no divisor.
pub proof fn lemma_prime_iff_no_small_divisor(n: int)
    requires
        n >= 2,
    ensures
        prime(n) <==> (forall|d: int| 2 <= d && d * d <= n ==> !#[trigger] divides(d, n)),
{
    if prime(n) {
        assert forall|d: int| 2 <= d && d * d <= n implies !#[trigger] divides(d, n) by {
            assert(d < n) by (nonlinear_arith)
                requires
                    2 <= d,
                    d * d <= n,
            ;
        }
    } else {
        lemma_least_divisor(n);
        assert(divides(least_divisor(n), n));
    }
}

/// A composite number has a prime divisor whose square does not exceed it.
pub proof fn lemma_composite_has_small_prime_divisor(n: int)
    requires
        n >= 2,
        !prime(n),
    ensures
        exists|p: int| prime(p) && p * p <= n && #[trigger] divides(p, n),
{
    lemma_least_divisor(n);
    assert(divides(least_divisor(n), n));
}

/// A prime has no prime divisor but itself.
pub proof fn lemma_prime_divisor_of_prime(p: int, q: int)
    requires
        prime(q),
        divides(p, q),
        p >= 2,
    ensures
        p == q,
{
    lemma_divisor_le(p, q);
}

/// What divides two numbers divides the one less any multiple of the other.
pub proof fn lemma_divides_combination(d: int, x: int, y: int, k: int)
    requires
        divides(d, x),
        divides(d, y),
    ensures
        divides(d, x - k * y),
{
    lemma_divides_quotient(d, x);
    lemma_divides_quotient(d, y);
    let u = x / d;
    let v = y / d;
    assert(x - k * y == d * (u - k * v)) by (nonlinear_arith)
        requires
            x == d * u,
            y == d * v,
    ;
    lemma_divides_multiple(d, u - k * v);
}

/// Euclid's lemma: a prime that divides a product of two positive numbers divides one of
/// them.
pub proof fn lemma_prime_divides_product(p: int, a: int, b: int)
    requires
        prime(p),
        a >= 1,
        b >= 1,
        divides(p, a * b),
    ensures
        divides(p, a) || divides(p, b),
    decreases a,
{
    if divides(p, a) {
    } else if a == 1 {
        assert(a * b == b) by (nonlinear_arith)
            requires
                a == 1,
        ;
    } else if a >= p {
        let q = a / p;
        let r = a % p;
        lemma_fundamental_div_mod(a, p);
        lemma_divides_multiple(p, b);
        lemma_divides_combination(p, a * b, p * b, q);
        assert(r * b == a * b - q * (p * b)) by (nonlinear_arith)
            requires
                a == p * q + r,
        ;
        lemma_small_mod(r as nat, p as nat);
        lemma_prime_divides_product(p, r, b);
    } else {
        let q = p / a;
        let r = p % a;
        lemma_fundamental_div_mod(p, a);
        assert(!divides(a, p));
        lemma_divides_multiple(p, b);
        lemma_divides_combination(p, p * b, a * b, q);
        assert(r * b == p * b - q * (a * b)) by (nonlinear_arith)
            requires
                p == a * q + r,
        ;
        lemma_small_mod(r as nat, p as nat);
        lemma_prime_divides_product(p, r, b);
    }
}

/// No even number above 2 is prime.
pub proof fn lemma_even_not_prime(n: int)
    requires
        n > 2,
        n % 2 == 0,
    ensures
        !prime(n),
{
    assert(divides(2, n));
}

/// `isqrt(n)` is the one non-negative `r` with `r * r <= n < (r + 1) * (r + 1)`.
pub proof fn lemma_isqrt_bounds(n: int)
    requires
        n >= 0,
    ensures
        0 <= isqrt(n),
        isqrt(n) * isqrt(n) <= n,
        n < (isqrt(n) + 1) * (isqrt(n) + 1),
    decreases n,
{
    if n > 0 {
        lemma_isqrt_bounds(n - 1);
        let r = isqrt(n - 1);
        if (r + 1) * (r + 1) <= n {
            lemma_square_strictly_monotone(r + 1, r + 2);
        }
    }
}

/// Whatever satisfies the bounds of the integer square root is the integer square root.
pub proof fn lemma_isqrt_unique(n: int, r: int)
    requires
        0 <= r,
        r * r <= n,
        n < (r + 1) * (r + 1),
    ensures
        r == isqrt(n),
{
    assert(n >= 0) by (nonlinear_arith)
        requires
            r * r <= n,
    ;
    lemma_isqrt_bounds(n);
    let s = isqrt(n);
    if r < s {
        lemma_square_monotone(r + 1, s);
    } else if s < r {
        lemma_square_monotone(s + 1, r);
    }
}

/// A non-negative `d` has `d * d <= n` exactly when `d <= isqrt(n)`.
pub proof fn lemma_isqrt_compare(d: int, n: int)
    requires
        0 <= d,
        0 <= n,
    ensures
        d * d <= n <==> d <= isqrt(n),
{
    lemma_isqrt_bounds(n);
    let s = isqrt(n);
    if d <= s {
        lemma_square_monotone(d, s);
    } else {
        lemma_square_monotone(s + 1, d);
    }
}

/// A number `n >= 2` is prime exactly when brute-force trial division by every integer from
/// 2 to its integer square root finds no divisor.
pub proof fn lemma_prime_iff_survives_trial_division(n: int)
    requires
        n >= 2,
    ensures
        prime(n) == survives_trial_division(n),
{
    lemma_prime_iff_no_small_divisor(n);
    if prime(n) {
        assert forall|d: int| 2 <= d <= isqrt(n) implies !#[trigger] divides(d, n) by {
            lemma_isqrt_compare(d, n);
        }
    } else {
        let d = choose|d: int| 2 <= d && d * d <= n && #[trigger] divides(d, n);
        lemma_isqrt_compare(d, n);
    }
}

/// The integer square root never decreases as its argument grows.
pub proof fn lemma_isqrt_monotone(a: int, b: int)
    requires
        0 <= a <= b,
    ensures
        isqrt(a) <= isqrt(b),
{
    lemma_isqrt_bounds(a);
    lemma_isqrt_compare(isqrt(a), b);
}

/// Computes the integer square root by bisection, comparing by division so that no
/// intermediate value leaves the machine range.
pub fn integer_sqrt(n: usize) -> (r: usize)
    ensures
        r == isqrt(n as int),
        r * r <= n < (r + 1) * (r + 1),
{
    let mut lo: usize = 0;
    let mut hi: usize = n;
    proof {
        assert(n < (n + 1) * (n + 1)) by (nonlinear_arith);
    }
    while lo < hi
        invariant
            lo <= hi <= n,
            lo * lo <= n,
            n < (hi + 1) * (hi + 1),
        decreases hi - lo,
    {
        let mid: usize = hi - (hi - lo) / 2;
        proof {
            lemma_square_le_by_division(mid as int, n as int);
        }
        if mid <= n / mid {
            lo = mid;
        } else {
            hi = mid - 1;
        }
    }
    proof {
        lemma_isqrt_unique(n as int, lo as int);
    }
    lo
}

} // verus!
