//! Primes one after the other, without a bound fixed in advance: each new prime is found by
//! trial division against the primes found before it.

use crate::arith::{lemma_even_not_prime, prime};
use crate::error::PrimeError;
use crate::oracle::is_prime;
use crate::prime_list::{
    ints, is_next_prime, is_nth_prime, is_prime_base, lemma_ints_push, lemma_next_prime_is_next_nth,
    lemma_nth_prime_unique, lemma_prime_base, lemma_prime_count_monotone, lemma_primes_in_push,
    lemma_primes_in_widen, lemma_primes_up_to_three, prime_count,
};
use crate::seed::lemma_list_covers;
use vstd::prelude::*;

verus! {

/// What one step of the generator does to the list of the primes found and what it yields:
/// the smallest prime above the last one found, which joins the list; or nothing, the list
/// staying as it is, where no such prime fits the machine's unsigned integer.
pub open spec fn yields(before: Seq<usize>, after: Seq<usize>, out: Option<usize>) -> bool {
    match out {
        Some(p) => after == before.push(p) && is_next_prime(before.last() as int, p as int),
        None => after == before && forall|q: int|
            before.last() < q <= usize::MAX ==> !#[trigger] prime(q),
    }
}

/// `states` are the lists that a generator holds from its start on, one step after the other,
/// and `outputs` what those steps yielded.
pub open spec fn is_run(states: Seq<Seq<usize>>, outputs: Seq<usize>) -> bool {
    &&& states.len() == outputs.len() + 1
    &&& states[0] == seq![2usize, 3usize]
    &&& forall|i: int|
        0 <= i < outputs.len() ==> yields(states[i], states[i + 1], Some(#[trigger] outputs[i]))
}

/// The list that holds 2 and 3 is a prime base.
pub proof fn lemma_initial_base()
    ensures
        is_prime_base(seq![2usize, 3usize]),
{
    lemma_primes_up_to_three();
    assert(ints(seq![2usize, 3usize]) =~= seq![2int, 3int]);
}

/// A prime base grown by the smallest prime above its last element is a prime base.
pub proof fn lemma_prime_base_push(s: Seq<usize>, p: usize)
    requires
        is_prime_base(s),
        is_next_prime(s.last() as int, p as int),
    ensures
        is_prime_base(s.push(p)),
{
    lemma_prime_base(s);
    lemma_ints_push(s, p);
    lemma_primes_in_widen(2, s.last() + 1, p as int);
    lemma_primes_in_push(2, p as int);
}

/// After `i` steps the generator holds a prime base of `i + 2` primes.
proof fn lemma_run_state(states: Seq<Seq<usize>>, outputs: Seq<usize>, i: int)
    requires
        is_run(states, outputs),
        0 <= i <= outputs.len(),
    ensures
        is_prime_base(states[i]),
        states[i].len() == i + 2,
    decreases i,
{
    if i == 0 {
        lemma_initial_base();
    } else {
        lemma_run_state(states, outputs, i - 1);
        assert(yields(states[i - 1], states[i - 1 + 1], Some(outputs[i - 1])));
        lemma_prime_base_push(states[i - 1], outputs[i - 1]);
    }
}

/// A generator driven from its start yields the third prime, the fourth, and so on: its
/// `i`-th output, counted from 0, is the `i + 3`-th prime. That prime fits the machine's
/// unsigned integer, so `nth_prime(i + 3)` succeeds, and it returns that output, there being
/// no other `i + 3`-th prime.
pub proof fn lemma_run_yields_nth_primes(states: Seq<Seq<usize>>, outputs: Seq<usize>)
    requires
        is_run(states, outputs),
    ensures
        forall|i: int|
            0 <= i < outputs.len() ==> is_nth_prime(#[trigger] outputs[i] as int, i + 3),
        outputs.len() + 2 <= prime_count(usize::MAX as int),
        forall|k: int, p: int|
            3 <= k < outputs.len() + 3 && #[trigger] is_nth_prime(p, k) ==> p == outputs[k - 3],
{
    assert forall|i: int| 0 <= i < outputs.len() implies is_nth_prime(
        #[trigger] outputs[i] as int,
        i + 3,
    ) by {
        lemma_run_state(states, outputs, i);
        let before = states[i];
        assert(yields(before, states[i + 1], Some(outputs[i])));
        lemma_prime_base(before);
        assert(is_nth_prime(before[i + 1] as int, i + 2));
        lemma_next_prime_is_next_nth(before.last() as int, outputs[i] as int, i + 2);
    }
    if outputs.len() > 0 {
        let last = outputs[outputs.len() - 1];
        assert(is_nth_prime(last as int, outputs.len() - 1 + 3));
        lemma_prime_count_monotone(last as int, usize::MAX as int);
    } else {
        lemma_primes_up_to_three();
        lemma_prime_count_monotone(3, usize::MAX as int);
    }
    assert forall|k: int, p: int|
        3 <= k < outputs.len() + 3 && #[trigger] is_nth_prime(p, k) implies p == outputs[k
            - 3] by {
        assert(is_nth_prime(outputs[k - 3] as int, k));
        lemma_nth_prime_unique(p, outputs[k - 3] as int, k);
    }
}

/// Finds the smallest prime above the last element of a prime base by trying the odd numbers
/// after it against the base, or finds that none fits the machine's unsigned integer.
fn next_prime(found: &Vec<usize>) -> (r: Option<usize>)
    requires
        is_prime_base(found@),
    ensures
        yields(
            found@,
            match r {
                Some(p) => found@.push(p),
                None => found@,
            },
            r,
        ),
{
    let last: usize = found[found.len() - 1];
    let mut c: usize = last;
    proof {
        lemma_prime_base(found@);
        if last % 2 == 0 {
            lemma_even_not_prime(last as int);
        }
    }
    loop
        invariant
            is_prime_base(found@),
            last == found@.last(),
            3 <= last <= c,
            c % 2 == 1,
            forall|q: int| last < q <= c ==> !#[trigger] prime(q),
        decreases usize::MAX - c,
    {
        if c > usize::MAX - 2 {
            proof {
                assert forall|q: int| last < q <= usize::MAX implies !#[trigger] prime(q) by {
                    if q > c {
                        lemma_even_not_prime(q);
                    }
                }
            }
            return None;
        }
        c = c + 2;
        proof {
            lemma_even_not_prime(c - 1);
            assert forall|p: int| #[trigger] prime(p) && p * p <= c implies p <= last by {
                assert(p < c) by (nonlinear_arith)
                    requires
                        2 <= p,
                        p * p <= c,
                ;
            }
            lemma_list_covers(found@, last as int, c as int);
        }
        if is_prime(c, found) {
            return Some(c);
        }
    }
}

/// An unbounded source of primes: it holds the primes found so far, 2 and 3 at the start,
/// and each step adds and yields the next one.
pub struct PrimeGenerator {
    found: Vec<usize>,
}

impl View for PrimeGenerator {
    type V = Seq<usize>;

    /// The primes found so far, in ascending order.
    closed spec fn view(&self) -> Seq<usize> {
        self.found@
    }
}

impl PrimeGenerator {
    /// The list is a prime base: all primes up to its last element, 2 and 3 among them.
    pub open spec fn wf(&self) -> bool {
        is_prime_base(self@)
    }

    /// A generator that has found 2 and 3 and will yield the primes from 5 on.
    pub fn new() -> (g: Self)
        ensures
            g.wf(),
            g@ == seq![2usize, 3usize],
    {
        let mut found: Vec<usize> = Vec::new();
        found.push(2);
        found.push(3);
        proof {
            lemma_initial_base();
            assert(found@ =~= seq![2usize, 3usize]);
        }
        PrimeGenerator { found }
    }

    /// Yields the smallest prime above the last one found and adds it to the list. Where that
    /// prime would not fit the machine's unsigned integer, yields nothing and changes nothing.
    pub fn next(&mut self) -> (r: Option<usize>)
        requires
            old(self).wf(),
        ensures
            final(self).wf(),
            yields(old(self)@, final(self)@, r),
    {
        let r = next_prime(&self.found);
        if let Some(p) = r {
            proof {
                lemma_prime_base_push(self.found@, p);
            }
            self.found.push(p);
        }
        r
    }
}

/// Returns the `n`-th prime, counting from 2 as the first, by driving the generator's search
/// until `n` primes are found. Fails with `InvalidArgument` for `n == 0`, and with `Overflow`
/// where fewer than `n` primes fit the machine's unsigned integer.
pub fn nth_prime(n: usize) -> (r: Result<usize, PrimeError>)
    ensures
        match r {
            Ok(p) => 1 <= n <= prime_count(usize::MAX as int) && is_nth_prime(p as int, n as int),
            Err(PrimeError::InvalidArgument) => n == 0,
            Err(PrimeError::Overflow) => n >= 1 && prime_count(usize::MAX as int) < n,
        },
{
    if n == 0 {
        return Err(PrimeError::InvalidArgument);
    }
    let mut found: Vec<usize> = Vec::new();
    found.push(2);
    found.push(3);
    proof {
        lemma_initial_base();
        assert(found@ =~= seq![2usize, 3usize]);
    }
    while n > found.len()
        invariant
            n >= 1,
            is_prime_base(found@),
        decreases n - found@.len(),
    {
        match next_prime(&found) {
            Some(c) => {
                proof {
                    lemma_prime_base_push(found@, c);
                }
                found.push(c);
            },
            None => {
                proof {
                    lemma_prime_base(found@);
                    lemma_primes_in_widen(2, found@.last() + 1, usize::MAX + 1);
                    assert(ints(found@).len() == found@.len());
                }
                return Err(PrimeError::Overflow);
            },
        }
    }
    proof {
        lemma_prime_base(found@);
        lemma_prime_count_monotone(found@[n - 1] as int, usize::MAX as int);
    }
    Ok(found[n - 1])
}

} // verus!
