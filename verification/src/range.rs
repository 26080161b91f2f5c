//! The primes of a closed interval, one after the other.

use crate::arith::{lemma_even_not_prime, prime};
use crate::oracle::{covers, is_prime, lemma_covers_smaller};
use crate::prime_list::{
    lemma_primes_in, lemma_primes_in_narrow, lemma_primes_in_push, lemma_primes_in_split,
    primes_in, takes_first,
};
use crate::seed::seed_primes;
use vstd::prelude::*;

verus! {

/// The odd primes `p` with `m <= p <= n`, handed out one by one from the smallest on. Only
/// odd candidates are tried, so 2 is never among them. Once through, it stays exhausted.
pub struct PrimeRange {
    index: usize,
    n: usize,
    seed_primes: Vec<usize>,
    exhausted: bool,
}

/// The odd primes `p` with `m <= p <= n`, in ascending order.
pub open spec fn odd_primes_between(m: int, n: int) -> Seq<int> {
    primes_in(
        if m < 3 {
            3
        } else {
            m
        },
        n + 1,
    )
}

/// Passing over an odd number that is not prime loses no prime of the interval.
proof fn lemma_skip_candidate(c: int, n: int)
    requires
        1 <= c <= n,
        c % 2 == 1,
        !prime(c),
    ensures
        odd_primes_between(c + 2, n) == odd_primes_between(c, n),
        c >= 3 ==> primes_in(c + 1, n + 1) == odd_primes_between(c, n),
{
    if c >= 3 {
        lemma_even_not_prime(c + 1);
        lemma_primes_in_narrow(c, c + 1, n + 1);
        if c + 2 <= n + 1 {
            lemma_primes_in_narrow(c, c + 2, n + 1);
        } else {
            lemma_primes_in(c, n + 1);
            lemma_primes_in(c + 2, n + 1);
            assert(primes_in(c + 2, n + 1) =~= primes_in(c, n + 1));
        }
    }
}

/// An odd prime within the interval is the first of what is left, and the rest begins two
/// further on.
proof fn lemma_take_candidate(c: int, n: int)
    requires
        1 <= c <= n,
        c % 2 == 1,
        prime(c),
    ensures
        odd_primes_between(c, n).len() > 0,
        odd_primes_between(c, n)[0] == c,
        odd_primes_between(c, n).drop_first() == primes_in(c + 1, n + 1),
        c + 2 <= n + 1 ==> primes_in(c + 1, n + 1) == odd_primes_between(c + 2, n),
{
    lemma_primes_in_split(c, c + 1, n + 1);
    lemma_primes_in_push(c, c);
    assert(primes_in(c, c) =~= Seq::<int>::empty());
    assert(primes_in(c, c + 1) =~= seq![c]);
    assert((seq![c] + primes_in(c + 1, n + 1)).drop_first() =~= primes_in(c + 1, n + 1));
    if c + 2 <= n + 1 {
        lemma_even_not_prime(c + 1);
        lemma_primes_in_narrow(c + 1, c + 2, n + 1);
    }
}

impl PrimeRange {
    /// The primes that are still to come, in the order in which they will come.
    pub closed spec fn remaining(&self) -> Seq<int> {
        if self.exhausted {
            Seq::empty()
        } else {
            odd_primes_between(self.index as int, self.n as int)
        }
    }

    /// The cursor is odd, and the base covers the upper bound.
    pub closed spec fn wf(&self) -> bool {
        &&& self.index % 2 == 1
        &&& covers(self.seed_primes@, self.n as int)
    }

    /// Stands before the first odd number from `m` on and builds the base for `n` once.
    pub fn new(m: usize, n: usize) -> (r: Self)
        ensures
            r.wf(),
            r.remaining() == odd_primes_between(m as int, n as int),
    {
        proof {
            assert(usize::MAX % 2 == 1) by {
                assert(usize::MAX == 0xffff_ffff || usize::MAX == 0xffff_ffff_ffff_ffff);
            }
        }
        let index: usize = if m % 2 == 0 {
            m + 1
        } else {
            m
        };
        proof {
            if m % 2 == 0 && m >= 4 {
                lemma_even_not_prime(m as int);
                if m + 1 <= n + 1 {
                    lemma_primes_in_narrow(m as int, m + 1, n + 1);
                } else {
                    assert(primes_in(m + 1, n + 1) =~= primes_in(m as int, n + 1));
                }
            }
        }
        PrimeRange { index, n, seed_primes: seed_primes(n), exhausted: false }
    }

    /// Yields the next odd prime of the interval, or nothing once the cursor has passed the
    /// upper bound.
    pub fn next(&mut self) -> (r: Option<usize>)
        requires
            old(self).wf(),
        ensures
            final(self).wf(),
            takes_first(old(self).remaining(), final(self).remaining(), r),
    {
        if self.exhausted {
            return None;
        }
        loop
            invariant
                self.wf(),
                !self.exhausted,
                self.n == old(self).n,
                self.remaining() == old(self).remaining(),
            decreases self.n + 2 - self.index,
        {
            if self.index > self.n {
                self.exhausted = true;
                return None;
            }
            let c: usize = self.index;
            proof {
                lemma_covers_smaller(self.seed_primes@, self.n as int, c as int);
            }
            let hit: bool = is_prime(c, &self.seed_primes);
            proof {
                if hit {
                    lemma_take_candidate(c as int, self.n as int);
                } else {
                    lemma_skip_candidate(c as int, self.n as int);
                }
            }
            if c > usize::MAX - 2 {
                proof {
                    if c + 1 <= self.n {
                        lemma_even_not_prime(c + 1);
                    }
                    lemma_primes_in(c + 1, self.n + 1);
                    assert(primes_in(c + 1, self.n + 1) =~= Seq::<int>::empty());
                }
                self.exhausted = true;
            } else {
                self.index = c + 2;
            }
            if hit {
                return Some(c);
            }
            if self.exhausted {
                return None;
            }
        }
    }
}

} // verus!
