//! Prime bases built by brute force: every odd candidate is tried against the primes found
//! so far.

use crate::arith::{
    isqrt, lemma_even_not_prime, lemma_isqrt_bounds, lemma_isqrt_compare, lemma_isqrt_monotone,
    lemma_square_le_by_division, lemma_square_monotone, prime,
};
use crate::oracle::{covers, is_prime, lemma_trial_division_in_two_parts};
use crate::prime_list::{
    base_bound, ints, is_prime_base, lemma_ints_add, lemma_ints_push, lemma_prime_base,
    lemma_primes_in, lemma_primes_in_prefix, lemma_primes_in_split, lemma_primes_up_to_three,
    prime_base, primes_in, primes_up_to,
};
use vstd::prelude::*;

verus! {

/// The new primes by which a base that ends in `last` grows to reach the bound `n`: the
/// primes above `last` whose square is within `n`.
pub open spec fn extension(last: int, n: int) -> Seq<int> {
    primes_in(last + 1, isqrt(n) + 1)
}

/// A list of all primes up to `bound` covers every `n` whose small prime divisors lie within
/// `bound`, and holds neither 0 nor 1.
pub proof fn lemma_list_covers(s: Seq<usize>, bound: int, n: int)
    requires
        ints(s) == primes_up_to(bound),
        forall|p: int| #[trigger] prime(p) && p * p <= n ==> p <= bound,
    ensures
        covers(s, n),
        forall|i: int| 0 <= i < s.len() ==> #[trigger] s[i] >= 2,
{
    lemma_primes_in(2, bound + 1);
    assert forall|i: int| 0 <= i < s.len() implies prime(#[trigger] s[i] as int) by {
        assert(ints(s)[i] == s[i] as int);
    }
    assert forall|i: int, j: int| 0 <= i < j < s.len() implies s[i] < s[j] by {
        assert(ints(s)[i] == s[i] as int);
        assert(ints(s)[j] == s[j] as int);
    }
}

/// A list of all primes up to the bound of a prime base for `n` covers `n`.
pub proof fn lemma_base_covers(s: Seq<usize>, n: int)
    requires
        0 <= n,
        ints(s) == primes_up_to(base_bound(n)),
    ensures
        covers(s, n),
{
    assert forall|p: int| #[trigger] prime(p) && p * p <= n implies p <= base_bound(n) by {
        lemma_isqrt_compare(p, n);
    }
    lemma_list_covers(s, base_bound(n), n);
}

/// A list of all primes up to a bound of at least 3 is a prime base.
pub proof fn lemma_list_is_prime_base(s: Seq<usize>, bound: int)
    requires
        ints(s) == primes_up_to(bound),
        bound >= 3,
    ensures
        is_prime_base(s),
        s.last() <= bound,
        forall|p: int| s.last() < p <= bound ==> !#[trigger] prime(p),
{
    let all = primes_up_to(bound);
    lemma_primes_up_to_three();
    lemma_primes_in_split(2, 4, bound + 1);
    lemma_primes_in(2, bound + 1);
    let i = all.len() - 1;
    lemma_primes_in_prefix(2, bound + 1, i);
    assert(all.take(i + 1) =~= all);
    assert(ints(s)[i] == s[i] as int);
    assert forall|p: int| s.last() < p <= bound implies !#[trigger] prime(p) by {
        if prime(p) {
            let k = choose|k: int| 0 <= k < all.len() && all[k] == p;
            assert(all[k] <= all[i]);
        }
    }
}

/// Two numbers further on, the list of the primes grows by that number if it is prime, the
/// number between being even.
proof fn lemma_primes_in_odd_step(lo: int, c: int)
    requires
        2 <= lo <= c + 1,
        c >= 3,
        c % 2 == 1,
    ensures
        primes_in(lo, c + 3) == if prime(c + 2) {
            primes_in(lo, c + 1).push(c + 2)
        } else {
            primes_in(lo, c + 1)
        },
        primes_in(lo, c + 2) == primes_in(lo, c + 1),
{
    lemma_even_not_prime(c + 1);
    assert(primes_in(lo, c + 2) == primes_in(lo, c + 1));
}

/// A prime whose square is within an odd candidate lies at least two below it.
proof fn lemma_small_primes_below_candidate(c: int)
    requires
        c >= 5,
        c % 2 == 1,
    ensures
        forall|p: int| #[trigger] prime(p) && p * p <= c ==> p <= c - 2,
{
    assert forall|p: int| #[trigger] prime(p) && p * p <= c implies p <= c - 2 by {
        assert(p < c) by (nonlinear_arith)
            requires
                2 <= p,
                p * p <= c,
        ;
        if p == c - 1 {
            lemma_even_not_prime(p);
        }
    }
}

/// Returns the primes up to the integer square root of `n`, in ascending order and always
/// with 2 and 3: each odd number from 5 on whose square is within `n` is tried against the
/// primes found before it.
pub fn seed_primes(n: usize) -> (primes: Vec<usize>)
    ensures
        ints(primes@) == prime_base(n as int),
        is_prime_base(primes@),
        covers(primes@, n as int),
{
    let mut primes: Vec<usize> = Vec::new();
    primes.push(2);
    primes.push(3);
    proof {
        lemma_primes_up_to_three();
        assert(ints(primes@) =~= seq![2int, 3int]);
    }
    let mut c: usize = 5;
    while c <= n / c
        invariant
            5 <= c,
            c % 2 == 1,
            c == 5 || (c - 2) * (c - 2) <= n,
            ints(primes@) == primes_up_to(c - 2),
        decreases n - c,
    {
        proof {
            lemma_square_le_by_division(c as int, n as int);
            assert(c + 2 <= n) by (nonlinear_arith)
                requires
                    c * c <= n,
                    c >= 5,
            ;
            lemma_small_primes_below_candidate(c as int);
            lemma_list_covers(primes@, c - 2, c as int);
            lemma_primes_in_odd_step(2, c - 2);
        }
        if is_prime(c, &primes) {
            proof {
                lemma_ints_push(primes@, c);
            }
            primes.push(c);
        }
        c += 2;
    }
    proof {
        lemma_square_le_by_division(c as int, n as int);
        lemma_isqrt_compare(c as int, n as int);
        lemma_isqrt_compare(c - 2, n as int);
        lemma_isqrt_bounds(n as int);
        let bound = base_bound(n as int);
        assert(c - 2 <= bound <= c - 1);
        lemma_even_not_prime(c - 1);
        assert(primes_in(2, c as int) == primes_in(2, c - 1));
        lemma_list_is_prime_base(primes@, bound);
        lemma_base_covers(primes@, n as int);
    }
    primes
}

/// Returns the primes by which `primes` must grow to reach the bound `n`, in ascending order:
/// the primes above its last element whose square is within `n`. Each odd candidate is tried
/// against the given base and against the new primes found before it.
pub fn extend_seed_primes(primes: &Vec<usize>, n: usize) -> (ext_primes: Vec<usize>)
    requires
        is_prime_base(primes@),
    ensures
        ints(ext_primes@) == extension(primes@.last() as int, n as int),
        is_prime_base(primes@ + ext_primes@),
        primes@.last() <= base_bound(n as int) ==> ints(primes@ + ext_primes@) == prime_base(
            n as int,
        ),
{
    let mut ext_primes: Vec<usize> = Vec::new();
    let last: usize = primes[primes.len() - 1];
    let mut c: usize = last;
    proof {
        lemma_prime_base(primes@);
        assert(last >= 3);
        assert(prime(last as int));
        if last % 2 == 0 {
            lemma_even_not_prime(last as int);
        }
        assert(ints(ext_primes@) =~= primes_in(last + 1, last + 1));
        lemma_isqrt_bounds(n as int);
    }
    loop
        invariant
            is_prime_base(primes@),
            last == primes@.last(),
            3 <= last <= c,
            c % 2 == 1,
            c == last || c * c <= n,
            ints(ext_primes@) == primes_in(last + 1, c + 1),
            0 <= isqrt(n as int),
            isqrt(n as int) * isqrt(n as int) <= n,
        ensures
            ints(ext_primes@) == extension(last as int, n as int),
        decreases n - c,
    {
        if c > usize::MAX - 2 {
            proof {
                let r = isqrt(n as int);
                if r >= c {
                    lemma_square_monotone(c as int, r);
                    assert(c * c > usize::MAX) by (nonlinear_arith)
                        requires
                            c >= usize::MAX - 1,
                            usize::MAX >= 0xffff_ffff,
                    ;
                }
                lemma_isqrt_compare(c as int, n as int);
            }
            break;
        }
        let next: usize = c + 2;
        proof {
            lemma_square_le_by_division(next as int, n as int);
            lemma_isqrt_compare(next as int, n as int);
            lemma_isqrt_compare(c as int, n as int);
            lemma_primes_in_odd_step(last + 1, c as int);
        }
        if next > n / next {
            break;
        }
        proof {
            assert(next <= n) by (nonlinear_arith)
                requires
                    next * next <= n,
                    next >= 5,
            ;
            let both = primes@ + ext_primes@;
            lemma_ints_add(primes@, ext_primes@);
            lemma_primes_in_split(2, last + 1, c + 1);
            lemma_small_primes_below_candidate(next as int);
            lemma_list_covers(both, c as int, next as int);
            lemma_trial_division_in_two_parts(next as int, primes@, ext_primes@);
            assert forall|i: int| 0 <= i < primes@.len() implies #[trigger] primes@[i] != 0 by {
                assert(both[i] >= 2);
            }
            assert forall|i: int| 0 <= i < ext_primes@.len() implies #[trigger] ext_primes@[i]
                != 0 by {
                assert(both[primes@.len() + i] >= 2);
            }
        }
        if is_prime(next, primes) && is_prime(next, &ext_primes) {
            proof {
                lemma_ints_push(ext_primes@, next);
            }
            ext_primes.push(next);
        }
        c = next;
    }
    proof {
        if ext_primes@.len() > 0 {
            let r = isqrt(n as int);
            let both = primes@ + ext_primes@;
            lemma_ints_add(primes@, ext_primes@);
            assert(r >= last + 1);
            lemma_primes_in_split(2, last + 1, r + 1);
            lemma_list_is_prime_base(both, r);
        } else {
            assert(primes@ + ext_primes@ =~= primes@);
            if last <= base_bound(n as int) {
                let r = isqrt(n as int);
                lemma_prime_base(primes@);
                assert(ints(primes@)[primes@.len() - 1] == last);
                if r >= last {
                    lemma_primes_in_split(2, last + 1, r + 1);
                    assert(ints(primes@) + Seq::<int>::empty() =~= ints(primes@));
                }
            }
        }
    }
    ext_primes
}

/// Seeding for `n` and then extending to a bound `bigger >= n` gives, one after the other,
/// what seeding for `bigger` gives at once.
pub proof fn lemma_seed_then_extend(n: int, bigger: int)
    requires
        0 <= n <= bigger,
    ensures
        prime_base(n) + extension(prime_base(n).last(), bigger) == prime_base(bigger),
{
    let bound = base_bound(n);
    let seeded = primes_up_to(bound);
    let last = seeded.last();
    let reach = isqrt(bigger);
    lemma_isqrt_monotone(n, bigger);
    lemma_primes_up_to_three();
    lemma_primes_in_split(2, 4, bound + 1);
    lemma_primes_in(2, bound + 1);
    lemma_primes_in_prefix(2, bound + 1, seeded.len() - 1);
    assert(seeded.take(seeded.len() as int) =~= seeded);
    assert(primes_in(2, last + 1) == seeded);
    assert(3 <= last <= bound) by {
        assert(seeded[1] == 3) by {
            assert((primes_in(2, 4) + primes_in(4, bound + 1))[1] == 3);
        }
    }
    if reach >= last {
        lemma_primes_in_split(2, last + 1, reach + 1);
    } else {
        assert(extension(last, bigger) =~= Seq::<int>::empty());
        assert(seeded + Seq::<int>::empty() =~= seeded);
    }
}

} // verus!
