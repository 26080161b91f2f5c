//! Factorization into primes by trial division against a prime base.

use crate::arith::{
    divides, lemma_composite_has_small_prime_divisor, lemma_divides_multiple,
    lemma_divides_quotient, lemma_divides_transitive, lemma_divisor_le,
    lemma_prime_divides_product, lemma_prime_divisor_of_prime, prime,
};
use crate::error::PrimeError;
use crate::oracle::covers;
use crate::prime_list::{base_bound, ints, lemma_ints_push, lemma_primes_in, primes_up_to};
use crate::seed::seed_primes;
use vstd::arithmetic::div_mod::lemma_mod_self_0;
use vstd::prelude::*;

verus! {

/// The product of the elements of `s`, 1 for the empty sequence.
pub open spec fn product(s: Seq<int>) -> int
    decreases s.len(),
{
    if s.len() == 0 {
        1
    } else {
        product(s.drop_last()) * s.last()
    }
}

/// `s` is the factorization of `n` into primes: its elements are primes, they never
/// decrease, and their product is `n`.
pub open spec fn is_prime_factorization(s: Seq<int>, n: int) -> bool {
    &&& forall|i: int| 0 <= i < s.len() ==> prime(#[trigger] s[i])
    &&& forall|i: int, j: int| 0 <= i <= j < s.len() ==> s[i] <= s[j]
    &&& product(s) == n
}

/// One more factor multiplies the product by it.
pub proof fn lemma_product_push(s: Seq<int>, x: int)
    ensures
        product(s.push(x)) == product(s) * x,
{
    assert(s.push(x).drop_last() =~= s);
}

/// A product of primes is at least 1, and at least its last factor.
proof fn lemma_product_of_primes(s: Seq<int>)
    requires
        forall|i: int| 0 <= i < s.len() ==> prime(#[trigger] s[i]),
    ensures
        product(s) >= 1,
        s.len() > 0 ==> product(s) >= s.last() >= 2,
    decreases s.len(),
{
    if s.len() > 0 {
        let front = s.drop_last();
        let x = s.last();
        assert(prime(s[s.len() - 1]));
        assert forall|i: int| 0 <= i < front.len() implies prime(#[trigger] front[i]) by {
            assert(front[i] == s[i]);
        }
        lemma_product_of_primes(front);
        assert(product(front) * x >= x) by (nonlinear_arith)
            requires
                product(front) >= 1,
                x >= 2,
        ;
    }
}

/// A prime that divides a product of primes is one of them.
proof fn lemma_prime_divisor_is_factor(p: int, s: Seq<int>)
    requires
        prime(p),
        forall|i: int| 0 <= i < s.len() ==> prime(#[trigger] s[i]),
        divides(p, product(s)),
    ensures
        s.contains(p),
    decreases s.len(),
{
    if s.len() == 0 {
        lemma_divisor_le(p, 1);
    } else {
        let front = s.drop_last();
        let x = s.last();
        assert(prime(s[s.len() - 1]));
        assert forall|i: int| 0 <= i < front.len() implies prime(#[trigger] front[i]) by {
            assert(front[i] == s[i]);
        }
        lemma_product_of_primes(front);
        lemma_prime_divides_product(p, product(front), x);
        if divides(p, x) {
            lemma_prime_divisor_of_prime(p, x);
            assert(s[s.len() - 1] == p);
        } else {
            lemma_prime_divisor_is_factor(p, front);
            let k = choose|k: int| 0 <= k < front.len() && front[k] == p;
            assert(s[k] == p);
        }
    }
}

/// The last factor of a factorization of `n` is no larger than that of any other.
proof fn lemma_last_factor_le(a: Seq<int>, b: Seq<int>, n: int)
    requires
        is_prime_factorization(a, n),
        is_prime_factorization(b, n),
        a.len() > 0,
    ensures
        b.len() > 0,
        a.last() <= b.last(),
{
    let x = a.last();
    assert(prime(a[a.len() - 1]));
    let front = a.drop_last();
    assert forall|i: int| 0 <= i < front.len() implies prime(#[trigger] front[i]) by {
        assert(front[i] == a[i]);
    }
    lemma_product_of_primes(front);
    lemma_divides_multiple(x, product(front));
    lemma_prime_divisor_is_factor(x, b);
    let k = choose|k: int| 0 <= k < b.len() && b[k] == x;
    assert(b[k] <= b[b.len() - 1]);
}

/// A number has at most one factorization into primes: whatever meets
/// `is_prime_factorization` for `n` is the same sequence.
pub proof fn lemma_prime_factorization_unique(a: Seq<int>, b: Seq<int>, n: int)
    requires
        is_prime_factorization(a, n),
        is_prime_factorization(b, n),
    ensures
        a == b,
    decreases a.len(),
{
    if a.len() == 0 {
        lemma_product_of_primes(b);
        assert(a =~= b);
    } else {
        lemma_last_factor_le(a, b, n);
        lemma_last_factor_le(b, a, n);
        let x = a.last();
        let front_a = a.drop_last();
        let front_b = b.drop_last();
        assert(product(front_a) == product(front_b)) by (nonlinear_arith)
            requires
                product(front_a) * x == product(front_b) * x,
                x >= 2,
        ;
        assert(is_prime_factorization(front_a, product(front_a))) by {
            assert forall|i: int| 0 <= i < front_a.len() implies prime(#[trigger] front_a[i]) by {
                assert(front_a[i] == a[i]);
            }
            assert forall|i: int, j: int| 0 <= i <= j < front_a.len() implies front_a[i]
                <= front_a[j] by {
                assert(a[i] <= a[j]);
            }
        }
        assert(is_prime_factorization(front_b, product(front_a))) by {
            assert forall|i: int| 0 <= i < front_b.len() implies prime(#[trigger] front_b[i]) by {
                assert(front_b[i] == b[i]);
            }
            assert forall|i: int, j: int| 0 <= i <= j < front_b.len() implies front_b[i]
                <= front_b[j] by {
                assert(b[i] <= b[j]);
            }
        }
        lemma_prime_factorization_unique(front_a, front_b, product(front_a));
        assert(a =~= front_a.push(x));
        assert(b =~= front_b.push(x));
    }
}

/// Dividing out a factor `p` keeps the product of the factors found and the rest equal to `n`.
proof fn lemma_divide_out(found: int, m: int, p: int, n: int)
    requires
        found * m == n,
        divides(p, m),
    ensures
        (found * p) * (m / p) == n,
{
    lemma_divides_quotient(p, m);
    let q = m / p;
    assert((found * p) * q == found * (p * q)) by (nonlinear_arith);
}

/// Returns the prime factors of `n`, each as often as it divides `n`, in ascending order.
/// The primes up to the integer square root of `n` are divided out one after the other; what
/// is left above 1 is the last factor. Fails with `InvalidArgument` for `n == 0`.
pub fn prime_factors(n: usize) -> (r: Result<Vec<usize>, PrimeError>)
    ensures
        match r {
            Ok(factors) => n >= 1 && is_prime_factorization(ints(factors@), n as int),
            Err(e) => n == 0 && e == PrimeError::InvalidArgument,
        },
{
    if n == 0 {
        return Err(PrimeError::InvalidArgument);
    }
    let base = seed_primes(n);
    let ghost bound = base_bound(n as int);
    let mut factors: Vec<usize> = Vec::new();
    let mut m: usize = n;
    let mut i: usize = 0;
    proof {
        lemma_primes_in(2, bound + 1);
        assert(ints(factors@) =~= Seq::<int>::empty());
        assert(product(ints(factors@)) * m == n) by (nonlinear_arith)
            requires
                product(ints(factors@)) == 1,
                m == n,
        ;
    }
    while i < base.len()
        invariant
            1 <= m <= n,
            0 <= i <= base@.len(),
            bound == base_bound(n as int),
            ints(base@) == primes_up_to(bound),
            covers(base@, n as int),
            product(ints(factors@)) * m == n,
            forall|k: int| 0 <= k < factors@.len() ==> prime(#[trigger] factors@[k] as int),
            forall|k: int, l: int| 0 <= k <= l < factors@.len() ==> factors@[k] <= factors@[l],
            forall|k: int, j: int|
                0 <= k < factors@.len() && i <= j < base@.len() ==> factors@[k] <= base@[j],
            forall|k: int| 0 <= k < factors@.len() ==> #[trigger] factors@[k] <= bound,
            forall|j: int| 0 <= j < i ==> !divides(#[trigger] base@[j] as int, m as int),
        decreases base@.len() - i,
    {
        let p: usize = base[i];
        proof {
            lemma_primes_in(2, bound + 1);
            assert(ints(base@)[i as int] == p);
            assert forall|j: int| i <= j < base@.len() implies p <= #[trigger] base@[j] by {
                assert(ints(base@)[j] == base@[j] as int);
            }
        }
        while m % p == 0
            invariant
                1 <= m <= n,
                0 <= i < base@.len(),
                p == base@[i as int],
                prime(p as int),
                p <= bound,
                product(ints(factors@)) * m == n,
                forall|k: int| 0 <= k < factors@.len() ==> prime(#[trigger] factors@[k] as int),
                forall|k: int, l: int|
                    0 <= k <= l < factors@.len() ==> factors@[k] <= factors@[l],
                forall|k: int| 0 <= k < factors@.len() ==> #[trigger] factors@[k] <= p,
                forall|k: int| 0 <= k < factors@.len() ==> #[trigger] factors@[k] <= bound,
                forall|j: int| 0 <= j < i ==> !divides(#[trigger] base@[j] as int, m as int),
            decreases m,
        {
            let ghost whole = m as int;
            let ghost before = factors@;
            proof {
                lemma_divisor_le(p as int, whole);
                lemma_divides_quotient(p as int, whole);
                lemma_divide_out(product(ints(before)), whole, p as int, n as int);
                lemma_ints_push(before, p);
                lemma_product_push(ints(before), p as int);
                assert(1 <= whole / (p as int) < whole) by (nonlinear_arith)
                    requires
                        whole == p * (whole / (p as int)),
                        p >= 2,
                        whole >= 1,
                ;
                lemma_divides_multiple(whole / (p as int), p as int);
            }
            m = m / p;
            factors.push(p);
            proof {
                assert forall|j: int| 0 <= j < i implies !divides(
                    #[trigger] base@[j] as int,
                    m as int,
                ) by {
                    if divides(base@[j] as int, m as int) {
                        lemma_divides_transitive(base@[j] as int, m as int, whole);
                    }
                }
            }
        }
        i += 1;
    }
    let ghost divided = factors@;
    if m > 1 {
        proof {
            lemma_primes_in(2, bound + 1);
            if !prime(m as int) {
                lemma_composite_has_small_prime_divisor(m as int);
                let q = choose|q: int| prime(q) && q * q <= m && #[trigger] divides(q, m as int);
                assert(q * q <= n);
                let j = choose|j: int| 0 <= j < ints(base@).len() && ints(base@)[j] == q;
                assert(base@[j] as int == q);
            }
            if m <= bound {
                let j = choose|j: int| 0 <= j < ints(base@).len() && ints(base@)[j] == m;
                assert(base@[j] as int == m);
                lemma_mod_self_0(m as int);
            }
            assert(prime(m as int) && m > bound);
            lemma_ints_push(divided, m);
            lemma_product_push(ints(divided), m as int);
        }
        factors.push(m);
    } else {
        proof {
            assert(product(ints(divided)) == n) by (nonlinear_arith)
                requires
                    product(ints(divided)) * m == n,
                    m == 1,
            ;
        }
    }
    proof {
        let s = ints(factors@);
        assert(product(s) == n);
        assert forall|k: int| 0 <= k < s.len() implies prime(#[trigger] s[k]) by {
            if k < divided.len() {
                assert(prime(divided[k] as int));
            }
        }
        assert forall|k: int, l: int| 0 <= k <= l < s.len() implies s[k] <= s[l] by {
            if l < divided.len() {
                assert(divided[k] <= divided[l]);
            } else if k < divided.len() {
                assert(divided[k] <= bound);
            }
        }
    }
    Ok(factors)
}

} // verus!
