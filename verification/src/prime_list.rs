//! The ascending list of the primes in an interval: the model of every prime base.

use crate::arith::{isqrt, prime};
use vstd::prelude::*;

verus! {

/// The primes `p` with `lo <= p < hi`, in ascending order.
pub open spec fn primes_in(lo: int, hi: int) -> Seq<int>
    decreases hi - lo,
{
    if hi <= lo {
        Seq::empty()
    } else if prime(hi - 1) {
        primes_in(lo, hi - 1).push(hi - 1)
    } else {
        primes_in(lo, hi - 1)
    }
}

/// The primes `p <= bound`, in ascending order.
pub open spec fn primes_up_to(bound: int) -> Seq<int> {
    primes_in(2, bound + 1)
}

/// How far a prime base for `n` reaches: to the integer square root of `n`, and at least to 3.
pub open spec fn base_bound(n: int) -> int {
    if isqrt(n) < 3 {
        3
    } else {
        isqrt(n)
    }
}

/// The prime base for `n`: the primes up to the integer square root of `n`, and always 2
/// and 3.
pub open spec fn prime_base(n: int) -> Seq<int> {
    primes_up_to(base_bound(n))
}

/// The number of primes `p <= bound`.
pub open spec fn prime_count(bound: int) -> nat {
    primes_up_to(bound).len()
}

/// `p` is the `k`-th prime, counting from 2 as the first.
pub open spec fn is_nth_prime(p: int, k: int) -> bool {
    prime(p) && prime_count(p) == k
}

/// `p` is the smallest prime above `after`.
pub open spec fn is_next_prime(after: int, p: int) -> bool {
    &&& after < p
    &&& prime(p)
    &&& forall|q: int| after < q < p ==> !#[trigger] prime(q)
}

/// One step of a finite source that hands out `before` front to back: it yields the first
/// element and keeps the rest, or yields nothing once nothing is left.
pub open spec fn takes_first(before: Seq<int>, after: Seq<int>, out: Option<usize>) -> bool {
    match out {
        Some(p) => before.len() > 0 && p == before[0] && after == before.drop_first(),
        None => before.len() == 0 && after.len() == 0,
    }
}

/// The mathematical integers that a sequence of machine integers holds.
pub open spec fn ints(s: Seq<usize>) -> Seq<int> {
    s.map_values(|x: usize| x as int)
}

/// A base as the seeding functions produce it: all primes up to its last element, 2 and 3
/// among them.
pub open spec fn is_prime_base(s: Seq<usize>) -> bool {
    s.len() >= 2 && ints(s) == primes_up_to(s.last() as int)
}

/// Appending one element commutes with reading a sequence as mathematical integers.
pub proof fn lemma_ints_push(s: Seq<usize>, x: usize)
    ensures
        ints(s.push(x)) == ints(s).push(x as int),
{
    assert(ints(s.push(x)) =~= ints(s).push(x as int));
}

/// Concatenation commutes with reading sequences as mathematical integers.
pub proof fn lemma_ints_add(a: Seq<usize>, b: Seq<usize>)
    ensures
        ints(a + b) == ints(a) + ints(b),
{
    assert(ints(a + b) =~= ints(a) + ints(b));
}

/// `primes_in(lo, hi)` is strictly ascending and holds exactly the primes of `[lo, hi)`.
pub proof fn lemma_primes_in(lo: int, hi: int)
    ensures
        forall|i: int|
            0 <= i < primes_in(lo, hi).len() ==> lo <= #[trigger] primes_in(lo, hi)[i] < hi
                && prime(primes_in(lo, hi)[i]),
        forall|i: int, j: int|
            0 <= i < j < primes_in(lo, hi).len() ==> primes_in(lo, hi)[i] < primes_in(lo, hi)[j],
        forall|p: int| lo <= p < hi && #[trigger] prime(p) ==> primes_in(lo, hi).contains(p),
    decreases hi - lo,
{
    if hi > lo {
        lemma_primes_in(lo, hi - 1);
        let before = primes_in(lo, hi - 1);
        let all = primes_in(lo, hi);
        assert forall|p: int| lo <= p < hi && #[trigger] prime(p) implies all.contains(p) by {
            if p < hi - 1 {
                let k = choose|k: int| 0 <= k < before.len() && before[k] == p;
                assert(all[k] == p);
            } else {
                assert(all[all.len() - 1] == p);
            }
        }
    }
}

/// Without a prime in `[lo, hi)` the list is empty.
pub proof fn lemma_primes_in_empty(lo: int, hi: int)
    requires
        forall|p: int| lo <= p < hi ==> !#[trigger] prime(p),
    ensures
        primes_in(lo, hi) == Seq::<int>::empty(),
    decreases hi - lo,
{
    if hi > lo {
        lemma_primes_in_empty(lo, hi - 1);
    }
}

/// The list of an interval is the list of its lower part followed by that of its upper part.
pub proof fn lemma_primes_in_split(lo: int, mid: int, hi: int)
    requires
        lo <= mid <= hi,
    ensures
        primes_in(lo, mid) + primes_in(mid, hi) == primes_in(lo, hi),
    decreases hi - mid,
{
    if hi == mid {
        assert(primes_in(lo, mid) + primes_in(mid, hi) =~= primes_in(lo, hi));
    } else {
        lemma_primes_in_split(lo, mid, hi - 1);
        assert(primes_in(lo, mid) + primes_in(mid, hi) =~= primes_in(lo, hi));
    }
}

/// Raising the upper end over numbers that are not prime leaves the list unchanged.
pub proof fn lemma_primes_in_widen(lo: int, hi: int, wider: int)
    requires
        lo <= hi <= wider,
        forall|p: int| hi <= p < wider ==> !#[trigger] prime(p),
    ensures
        primes_in(lo, wider) == primes_in(lo, hi),
{
    lemma_primes_in_split(lo, hi, wider);
    lemma_primes_in_empty(hi, wider);
    assert(primes_in(lo, hi) + Seq::<int>::empty() =~= primes_in(lo, hi));
}

/// Raising the lower end over numbers that are not prime leaves the list unchanged.
pub proof fn lemma_primes_in_narrow(lo: int, higher: int, hi: int)
    requires
        lo <= higher <= hi,
        forall|p: int| lo <= p < higher ==> !#[trigger] prime(p),
    ensures
        primes_in(higher, hi) == primes_in(lo, hi),
{
    lemma_primes_in_split(lo, higher, hi);
    lemma_primes_in_empty(lo, higher);
    assert(Seq::<int>::empty() + primes_in(higher, hi) =~= primes_in(higher, hi));
}

/// Appending a prime that is the next number: the step by which the lists grow.
pub proof fn lemma_primes_in_push(lo: int, p: int)
    requires
        lo <= p,
        prime(p),
    ensures
        primes_in(lo, p + 1) == primes_in(lo, p).push(p),
{
}

/// The primes up to 3 are 2 and 3.
pub proof fn lemma_primes_up_to_three()
    ensures
        primes_up_to(3) == seq![2int, 3int],
        primes_in(2, 2) == Seq::<int>::empty(),
        primes_in(2, 3) == seq![2int],
{
    assert(prime(2));
    assert(prime(3));
    assert(primes_in(2, 2) =~= Seq::<int>::empty());
    assert(primes_in(2, 3) =~= seq![2int]);
    assert(primes_in(2, 4) =~= seq![2int, 3int]);
}

/// The element at index `i` of a list closes the list of its first `i + 1` elements.
pub proof fn lemma_primes_in_prefix(lo: int, hi: int, i: int)
    requires
        0 <= i < primes_in(lo, hi).len(),
    ensures
        primes_in(lo, primes_in(lo, hi)[i] + 1) == primes_in(lo, hi).take(i + 1),
{
    let all = primes_in(lo, hi);
    let p = all[i];
    lemma_primes_in(lo, hi);
    lemma_primes_in(lo, p + 1);
    lemma_primes_in(p + 1, hi);
    lemma_primes_in_split(lo, p + 1, hi);
    let low = primes_in(lo, p + 1);
    let high = primes_in(p + 1, hi);
    assert(all == low + high);
    if low.len() > i + 1 {
        assert(all[i + 1] == low[i + 1]);
    }
    if low.len() <= i {
        assert(all[i] == high[i - low.len()]);
    }
    assert(low =~= all.take(i + 1));
}

/// In the list of all primes up to a bound, the element at index `i` is the `i + 1`-th prime.
pub proof fn lemma_index_is_nth_prime(bound: int, i: int)
    requires
        0 <= i < primes_up_to(bound).len(),
    ensures
        is_nth_prime(primes_up_to(bound)[i], i + 1),
{
    lemma_primes_in(2, bound + 1);
    lemma_primes_in_prefix(2, bound + 1, i);
}

/// The number of primes up to a bound never decreases as the bound grows.
pub proof fn lemma_prime_count_monotone(a: int, b: int)
    requires
        a <= b,
    ensures
        prime_count(a) <= prime_count(b),
{
    if a >= 1 {
        lemma_primes_in_split(2, a + 1, b + 1);
    } else {
        assert(primes_up_to(a) =~= Seq::<int>::empty()) by {
            lemma_primes_in(2, a + 1);
        }
    }
}

/// A prime raises the count of the primes up to it over that of every smaller bound.
pub proof fn lemma_prime_count_strict(a: int, p: int)
    requires
        a < p,
        prime(p),
    ensures
        prime_count(a) < prime_count(p),
{
    lemma_prime_count_monotone(a, p - 1);
    lemma_primes_in_push(2, p);
}

/// There is at most one `k`-th prime.
pub proof fn lemma_nth_prime_unique(p: int, q: int, k: int)
    requires
        is_nth_prime(p, k),
        is_nth_prime(q, k),
    ensures
        p == q,
{
    if p < q {
        lemma_prime_count_strict(p, q);
    } else if q < p {
        lemma_prime_count_strict(q, p);
    }
}

/// The smallest prime above the `k`-th prime is the `k + 1`-th prime.
pub proof fn lemma_next_prime_is_next_nth(p: int, q: int, k: int)
    requires
        is_nth_prime(p, k),
        is_next_prime(p, q),
    ensures
        is_nth_prime(q, k + 1),
{
    lemma_primes_in_widen(2, p + 1, q);
    lemma_primes_in_push(2, q);
}

/// What a prime base holds: it is strictly ascending, its elements are primes, every prime
/// up to its last element occurs in it, and the element at index `i` is the `i + 1`-th prime.
pub proof fn lemma_prime_base(s: Seq<usize>)
    requires
        is_prime_base(s),
    ensures
        s[0] == 2,
        s[1] == 3,
        forall|i: int| 0 <= i < s.len() ==> prime(#[trigger] s[i] as int),
        forall|i: int, j: int| 0 <= i < j < s.len() ==> s[i] < s[j],
        forall|p: int| 2 <= p <= s.last() && #[trigger] prime(p) ==> ints(s).contains(p),
        forall|i: int| 0 <= i < s.len() ==> is_nth_prime(#[trigger] s[i] as int, i + 1),
{
    let bound = s.last() as int;
    lemma_primes_in(2, bound + 1);
    assert forall|i: int| 0 <= i < s.len() implies prime(#[trigger] s[i] as int) && is_nth_prime(
        s[i] as int,
        i + 1,
    ) by {
        assert(ints(s)[i] == s[i] as int);
        lemma_index_is_nth_prime(bound, i);
    }
    assert forall|i: int, j: int| 0 <= i < j < s.len() implies s[i] < s[j] by {
        assert(ints(s)[i] == s[i] as int);
        assert(ints(s)[j] == s[j] as int);
    }
    lemma_primes_up_to_three();
    assert(is_nth_prime(s[0] as int, 1));
    assert(is_nth_prime(s[1] as int, 2));
    lemma_primes_in_push(2, 2);
    lemma_primes_in_push(2, 3);
    assert(is_nth_prime(2, 1));
    assert(is_nth_prime(3, 2));
    lemma_nth_prime_unique(s[0] as int, 2, 1);
    lemma_nth_prime_unique(s[1] as int, 3, 2);
}

} // verus!
