//! The primality oracle: trial division of a candidate by the elements of a prime base.

use crate::arith::{
    divides, isqrt, lemma_composite_has_small_prime_divisor, lemma_isqrt_compare,
    lemma_isqrt_monotone, lemma_prime_iff_survives_trial_division, lemma_square_le_by_division,
    lemma_square_monotone, prime, survives_trial_division,
};
use crate::prime_list::{
    ints, is_prime_base, lemma_ints_add, lemma_prime_base, lemma_primes_in, lemma_primes_in_split,
    primes_up_to,
};
use crate::seed::{extend_seed_primes, seed_primes};
use vstd::prelude::*;

verus! {

/// Trial division of `n` gets as far as index `i` of `base`: the square of every element up
/// to and including that index is within `n`.
pub open spec fn reached(n: int, base: Seq<usize>, i: int) -> bool {
    forall|j: int| 0 <= j <= i ==> (#[trigger] base[j]) * base[j] <= n
}

/// What trial division of `n` by `base` answers: 0 and 1 are rejected, 2 and 3 accepted, and
/// a larger `n` is accepted unless an element divides it that trial division gets to. The
/// division stops in front of the first element whose square exceeds `n`.
pub open spec fn trial_division(n: int, base: Seq<usize>) -> bool {
    n >= 2 && (n <= 3 || forall|i: int|
        0 <= i < base.len() && #[trigger] reached(n, base, i) ==> !divides(base[i] as int, n))
}

/// `base` is fit to decide the primality of `n`: it is strictly ascending, holds primes only,
/// and holds every prime whose square is within `n`.
pub open spec fn covers(base: Seq<usize>, n: int) -> bool {
    &&& forall|i: int, j: int| 0 <= i < j < base.len() ==> base[i] < base[j]
    &&& forall|i: int| 0 <= i < base.len() ==> prime(#[trigger] base[i] as int)
    &&& forall|p: int| #[trigger] prime(p) && p * p <= n ==> ints(base).contains(p)
}

/// A base that covers `n` covers every smaller number.
pub proof fn lemma_covers_smaller(base: Seq<usize>, n: int, c: int)
    requires
        covers(base, n),
        c <= n,
    ensures
        covers(base, c),
{
}

/// In an ascending base, trial division gets to every element whose square is within `n`.
pub proof fn lemma_reached_in_ascending(n: int, base: Seq<usize>, i: int)
    requires
        forall|i: int, j: int| 0 <= i < j < base.len() ==> base[i] < base[j],
        0 <= i < base.len(),
        base[i] * base[i] <= n,
    ensures
        reached(n, base, i),
{
    assert forall|j: int| 0 <= j <= i implies (#[trigger] base[j]) * base[j] <= n by {
        lemma_square_monotone(base[j] as int, base[i] as int);
    }
}

/// Trial division accepts every prime, whatever the base, as long as the base holds neither
/// 0 nor 1.
pub proof fn lemma_trial_division_accepts_primes(n: int, base: Seq<usize>)
    requires
        prime(n),
        forall|i: int| 0 <= i < base.len() ==> #[trigger] base[i] >= 2,
    ensures
        trial_division(n, base),
{
    assert forall|i: int| 0 <= i < base.len() && #[trigger] reached(n, base, i) implies !divides(
        base[i] as int,
        n,
    ) by {
        let d = base[i] as int;
        assert(d * d <= n);
        assert(d < n) by (nonlinear_arith)
            requires
                2 <= d,
                d * d <= n,
        ;
    }
}

/// Trial division by a base that covers `n` decides whether `n` is prime.
pub proof fn lemma_trial_division_correct(n: int, base: Seq<usize>)
    requires
        covers(base, n),
    ensures
        trial_division(n, base) == prime(n),
{
    if prime(n) {
        assert forall|i: int| 0 <= i < base.len() implies #[trigger] base[i] >= 2 by {
            assert(prime(base[i] as int));
        }
        lemma_trial_division_accepts_primes(n, base);
    } else if n >= 2 {
        assert(n >= 4) by {
            assert(prime(2));
            assert(prime(3));
        }
        lemma_composite_has_small_prime_divisor(n);
        let p = choose|p: int| prime(p) && p * p <= n && #[trigger] divides(p, n);
        let i = choose|i: int| 0 <= i < ints(base).len() && ints(base)[i] == p;
        assert(base[i] as int == p);
        lemma_reached_in_ascending(n, base, i);
    }
}

/// Where two lists one after the other cover `n`, trial division by each of them in turn
/// decides whether `n >= 4` is prime.
pub proof fn lemma_trial_division_in_two_parts(n: int, first: Seq<usize>, second: Seq<usize>)
    requires
        n >= 4,
        covers(first + second, n),
    ensures
        (trial_division(n, first) && trial_division(n, second)) == prime(n),
{
    let both = first + second;
    assert forall|i: int| 0 <= i < first.len() implies #[trigger] first[i] >= 2 by {
        assert(prime(both[i] as int));
    }
    assert forall|i: int| 0 <= i < second.len() implies #[trigger] second[i] >= 2 by {
        assert(prime(both[first.len() + i] as int));
    }
    if prime(n) {
        lemma_trial_division_accepts_primes(n, first);
        lemma_trial_division_accepts_primes(n, second);
    } else {
        lemma_composite_has_small_prime_divisor(n);
        let p = choose|p: int| prime(p) && p * p <= n && #[trigger] divides(p, n);
        let i = choose|i: int| 0 <= i < ints(both).len() && ints(both)[i] == p;
        assert(both[i] as int == p);
        if i < first.len() {
            assert forall|a: int, b: int| 0 <= a < b < first.len() implies first[a] < first[b] by {
                assert(both[a] < both[b]);
            }
            lemma_reached_in_ascending(n, first, i);
        } else {
            let k = i - first.len();
            assert forall|a: int, b: int| 0 <= a < b < second.len() implies second[a]
                < second[b] by {
                assert(both[first.len() + a] < both[first.len() + b]);
            }
            assert(second[k] == both[i]);
            lemma_reached_in_ascending(n, second, k);
        }
    }
}

/// Decides by trial division whether `n` is prime. The elements of `primes_below` are tried
/// in order; the first one whose square exceeds `n` ends the trial in favour of `n`, an exact
/// divisor before it ends the trial against `n`. The answer is the primality of `n` whenever
/// the base covers `n`.
pub fn is_prime(n: usize, primes_below: &Vec<usize>) -> (r: bool)
    requires
        forall|i: int| 0 <= i < primes_below@.len() ==> #[trigger] primes_below@[i] != 0,
    ensures
        r == trial_division(n as int, primes_below@),
        covers(primes_below@, n as int) ==> r == prime(n as int),
{
    proof {
        if covers(primes_below@, n as int) {
            lemma_trial_division_correct(n as int, primes_below@);
        }
    }
    if n <= 1 {
        return false;
    }
    if n <= 3 {
        return true;
    }
    let mut i: usize = 0;
    while i < primes_below.len()
        invariant
            n >= 4,
            0 <= i <= primes_below@.len(),
            covers(primes_below@, n as int) ==> trial_division(n as int, primes_below@) == prime(
                n as int,
            ),
            forall|i: int| 0 <= i < primes_below@.len() ==> #[trigger] primes_below@[i] != 0,
            forall|j: int|
                0 <= j < i ==> (#[trigger] primes_below@[j]) * primes_below@[j] <= n && !divides(
                    primes_below@[j] as int,
                    n as int,
                ),
        decreases primes_below@.len() - i,
    {
        let p: usize = primes_below[i];
        proof {
            lemma_square_le_by_division(p as int, n as int);
        }
        if p > n / p {
            proof {
                assert forall|k: int|
                    0 <= k < primes_below@.len() && #[trigger] reached(
                        n as int,
                        primes_below@,
                        k,
                    ) implies !divides(primes_below@[k] as int, n as int) by {
                    if k >= i {
                        assert(primes_below@[i as int] * primes_below@[i as int] <= n);
                    }
                }
            }
            return true;
        }
        if n % p == 0 {
            proof {
                assert(reached(n as int, primes_below@, i as int));
            }
            return false;
        }
        i += 1;
    }
    true
}

/// The bound up to which the whole base is built at once for a small candidate, and from
/// which the base grows tenfold at a time for a large one.
pub const SEED_LIMIT: usize = 1_000_000;

/// A number `n >= 2` that no prime up to the integer square root of some `m >= n` divides is
/// prime.
proof fn lemma_no_small_prime_divisor(n: int, m: int, tested: Seq<usize>)
    requires
        2 <= n <= m,
        ints(tested) == primes_up_to(isqrt(m)),
        forall|j: int| 0 <= j < tested.len() ==> !divides(#[trigger] tested[j] as int, n),
    ensures
        prime(n),
{
    if !prime(n) {
        lemma_composite_has_small_prime_divisor(n);
        let p = choose|p: int| prime(p) && p * p <= n && #[trigger] divides(p, n);
        lemma_isqrt_compare(p, n);
        lemma_isqrt_monotone(n, m);
        lemma_primes_in(2, isqrt(m) + 1);
        let i = choose|i: int| 0 <= i < ints(tested).len() && ints(tested)[i] == p;
        assert(tested[i] as int == p);
    }
}

/// Decides whether `n` is prime, for every `n`. Below `SEED_LIMIT` the base for `n` is built
/// at once and the oracle asked. From there on a base for `SEED_LIMIT` is tried first and then
/// grown to a bound ten times larger at a time, new primes being tried as they come, until a
/// divisor turns up or the bound exceeds `n`. A bound that would leave the machine range
/// stops at `usize::MAX`, which ends the search.
pub fn is_prime_py(n: usize) -> (r: bool)
    ensures
        r == prime(n as int),
        n >= 2 ==> r == survives_trial_division(n as int),
{
    proof {
        if n >= 2 {
            lemma_prime_iff_survives_trial_division(n as int);
        }
    }
    let mut m: usize = SEED_LIMIT;
    if n < m {
        let base = seed_primes(n);
        return is_prime(n, &base);
    }
    let mut primes: Vec<usize> = seed_primes(m);
    let mut tested: usize = 0;
    proof {
        lemma_isqrt_compare(3, m as int);
    }
    loop
        invariant
            SEED_LIMIT <= n,
            prime(n as int) == survives_trial_division(n as int),
            SEED_LIMIT <= m <= 10 * n,
            is_prime_base(primes@),
            ints(primes@) == primes_up_to(isqrt(m as int)),
            tested <= primes@.len(),
            forall|j: int| 0 <= j < tested ==> !divides(#[trigger] primes@[j] as int, n as int),
        decreases usize::MAX - m,
    {
        while tested < primes.len()
            invariant
                SEED_LIMIT <= n,
                prime(n as int) == survives_trial_division(n as int),
                SEED_LIMIT <= m <= 10 * n,
                is_prime_base(primes@),
                ints(primes@) == primes_up_to(isqrt(m as int)),
                tested <= primes@.len(),
                forall|j: int|
                    0 <= j < tested ==> !divides(#[trigger] primes@[j] as int, n as int),
            decreases primes@.len() - tested,
        {
            let p: usize = primes[tested];
            proof {
                lemma_prime_base(primes@);
                assert(prime(p as int));
            }
            if n % p == 0 {
                proof {
                    lemma_primes_in(2, isqrt(m as int) + 1);
                    assert(ints(primes@)[tested as int] == p);
                    lemma_isqrt_compare(p as int, m as int);
                    assert(p < n) by (nonlinear_arith)
                        requires
                            p * p <= m,
                            m <= 10 * n,
                            n >= 1_000_000,
                    ;
                    assert(divides(p as int, n as int));
                }
                return false;
            }
            tested += 1;
        }
        if m > n || m == usize::MAX {
            proof {
                lemma_no_small_prime_divisor(n as int, m as int, primes@);
            }
            return true;
        }
        let ghost narrow = m as int;
        m = if m > usize::MAX / 10 {
            usize::MAX
        } else {
            m * 10
        };
        let mut ext_primes = extend_seed_primes(&primes, m);
        proof {
            let last = primes@.last() as int;
            lemma_ints_add(primes@, ext_primes@);
            lemma_isqrt_monotone(narrow, m as int);
            lemma_primes_in(2, isqrt(narrow) + 1);
            assert(ints(primes@)[primes@.len() - 1] == last);
            lemma_primes_in_split(2, last + 1, isqrt(m as int) + 1);
            if ext_primes@.len() == 0 {
                assert(primes@ + ext_primes@ =~= primes@);
            }
        }
        primes.append(&mut ext_primes);
    }
}

} // verus!
