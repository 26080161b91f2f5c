//! The sieve of Eratosthenes: over one array for a small range, and over successive windows
//! for a large one, so that the working memory stays bounded.

use crate::arith::{
    divides, integer_sqrt, isqrt, least_divisor, lemma_cofactor,
    lemma_composite_has_small_prime_divisor, lemma_divides_multiple,
    lemma_divides_next_multiple, lemma_divides_quotient, lemma_divides_transitive,
    lemma_isqrt_compare, lemma_least_divisor, lemma_prime_divisor_of_prime,
    lemma_prime_iff_no_small_divisor, lemma_square_monotone, prime,
};
use crate::oracle::covers;
use crate::prime_list::{
    base_bound, ints, is_prime_base, lemma_ints_push, lemma_primes_in, prime_base, primes_in,
    primes_up_to, takes_first,
};
use crate::seed::{lemma_base_covers, lemma_list_is_prime_base};
use vstd::arithmetic::div_mod::{lemma_fundamental_div_mod, lemma_mod_self_0};
use vstd::prelude::*;

verus! {

/// No `d` with `2 <= d < limit` is a proper divisor of `x`.
pub open spec fn no_divisor_below(x: int, limit: int) -> bool {
    forall|d: int| 2 <= d < limit && d < x ==> !#[trigger] divides(d, x)
}

/// Two multiples of `d` are equal or at least `d` apart.
pub proof fn lemma_multiples_apart(d: int, a: int, b: int)
    requires
        divides(d, a),
        divides(d, b),
        a < b,
    ensures
        a + d <= b,
{
    lemma_divides_quotient(d, a);
    lemma_divides_quotient(d, b);
    let j = a / d;
    let k = b / d;
    assert(a + d <= b) by (nonlinear_arith)
        requires
            a == d * j,
            b == d * k,
            a < b,
            d > 0,
    ;
}

/// A proper multiple of `i` that no smaller number divides properly is at least `i * i`.
proof fn lemma_unmarked_multiple_is_large(x: int, i: int)
    requires
        2 <= i < x,
        divides(i, x),
        no_divisor_below(x, i),
    ensures
        i * i <= x,
{
    lemma_cofactor(i, x);
    let k = x / i;
    assert(divides(k, x));
    assert(k >= i);
    assert(i * i <= x) by (nonlinear_arith)
        requires
            i * k == x,
            k >= i,
            i >= 2,
    ;
}

/// A proper multiple of a composite `i` has a proper divisor below `i`.
proof fn lemma_multiple_of_composite(x: int, i: int)
    requires
        2 <= i < x,
        divides(i, x),
        !prime(i),
    ensures
        !no_divisor_below(x, i),
{
    lemma_least_divisor(i);
    let l = least_divisor(i);
    lemma_divides_transitive(l, i, x);
    assert(divides(l, x));
}

/// A number without a proper divisor below `limit`, where `limit * limit` exceeds it, is prime.
proof fn lemma_sieved_is_prime(x: int, limit: int)
    requires
        x >= 2,
        limit >= 0,
        x < limit * limit,
        no_divisor_below(x, limit),
    ensures
        prime(x),
{
    lemma_prime_iff_no_small_divisor(x);
    assert forall|d: int| 2 <= d && d * d <= x implies !#[trigger] divides(d, x) by {
        if d >= limit {
            lemma_square_monotone(limit, d);
        }
        assert(d < x) by (nonlinear_arith)
            requires
                2 <= d,
                d * d <= x,
        ;
    }
}

/// Sieves the whole range `[0, max(n, 4))` in one array and returns the primes below
/// `max(n, 4)` in ascending order.
pub fn sieve0(n: usize) -> (primes: Vec<usize>)
    ensures
        ints(primes@) == primes_in(
            2,
            if n < 4 {
                4
            } else {
                n as int
            },
        ),
{
    let n: usize = if n < 4 {
        4
    } else {
        n
    };
    let mut state: Vec<bool> = vec![true; n];
    state.set(0, false);
    state.set(1, false);
    let m: usize = integer_sqrt(n);
    proof {
        assert(1 <= m < n) by (nonlinear_arith)
            requires
                m * m <= n,
                n < (m + 1) * (m + 1),
                n >= 4,
        ;
        assert forall|x: int| 0 <= x < n && state@[x] implies x >= 2 && no_divisor_below(
            x,
            2,
        ) by {}
    }
    let mut i: usize = 2;
    while i <= m
        invariant
            2 <= i <= m + 1,
            m < n,
            m * m <= n,
            state@.len() == n,
            forall|x: int|
                0 <= x < n && #[trigger] state@[x] ==> x >= 2 && no_divisor_below(x, i as int),
            forall|x: int| 0 <= x < n && !#[trigger] state@[x] ==> !prime(x),
        decreases m + 1 - i,
    {
        let ghost before = state@;
        if state[i] {
            proof {
                lemma_square_monotone(i as int, m as int);
                lemma_divides_multiple(i as int, i as int);
            }
            let mut j: usize = i * i;
            while j < n
                invariant
                    2 <= i <= m,
                    i * i <= j <= n,
                    j == n || divides(i as int, j as int),
                    state@.len() == n,
                    before.len() == n,
                    forall|x: int| 0 <= x < n && #[trigger] state@[x] ==> before[x],
                    forall|x: int| 0 <= x < n && !#[trigger] state@[x] ==> !prime(x),
                    forall|x: int|
                        i * i <= x < j && divides(i as int, x) ==> !#[trigger] state@[x],
                decreases n - j,
            {
                proof {
                    assert(i < j) by (nonlinear_arith)
                        requires
                            i * i <= j,
                            i >= 2,
                    ;
                    assert(divides(i as int, j as int));
                    lemma_divides_next_multiple(i as int, j as int);
                }
                state.set(j, false);
                let ghost marked = j as int;
                if n - j <= i {
                    j = n;
                } else {
                    j = j + i;
                }
                proof {
                    assert forall|x: int|
                        i * i <= x < j && divides(i as int, x) implies !#[trigger] state@[x] by {
                        if x > marked {
                            lemma_multiples_apart(i as int, marked, x);
                        }
                    }
                }
            }
        }
        proof {
            assert forall|x: int| 0 <= x < n && #[trigger] state@[x] implies x >= 2
                && no_divisor_below(x, i + 1) by {
                assert(before[x]);
                assert(no_divisor_below(x, i as int));
                if i < x && divides(i as int, x) {
                    if before[i as int] {
                        lemma_unmarked_multiple_is_large(x, i as int);
                    } else {
                        lemma_multiple_of_composite(x, i as int);
                    }
                }
            }
        }
        i += 1;
    }
    proof {
        assert forall|x: int| 0 <= x < n implies #[trigger] state@[x] == prime(x) by {
            if state@[x] {
                lemma_sieved_is_prime(x, m + 1);
            }
        }
    }
    let mut primes: Vec<usize> = Vec::new();
    let mut x: usize = 0;
    while x < n
        invariant
            x <= n,
            state@.len() == n,
            forall|y: int| 0 <= y < n ==> #[trigger] state@[y] == prime(y),
            ints(primes@) == primes_in(2, x as int),
        decreases n - x,
    {
        if state[x] {
            proof {
                lemma_ints_push(primes@, x);
            }
            primes.push(x);
        }
        x += 1;
    }
    primes
}

/// Some element of `base` divides `x`.
pub open spec fn has_divisor_in(x: int, base: Seq<usize>) -> bool {
    exists|i: int| 0 <= i < base.len() && divides(#[trigger] base[i] as int, x)
}

/// The multiple of `p` computed from the quotient of `from` is the first one at or above `from`.
proof fn lemma_first_multiple(p: int, from: int)
    requires
        p > 0,
        from >= 0,
    ensures
        from % p == 0 ==> p * (from / p) == from,
        from % p != 0 ==> from < p * (from / p + 1) < from + p,
        divides(p, p * (from / p)),
        divides(p, p * (from / p + 1)),
        from % p != 0 ==> forall|x: int|
            from <= x < p * (from / p + 1) ==> !#[trigger] divides(p, x),
{
    lemma_fundamental_div_mod(from, p);
    let q = from / p;
    lemma_divides_multiple(p, q);
    lemma_divides_multiple(p, q + 1);
    assert(p * (q + 1) == p * q + p) by (nonlinear_arith);
    if from % p != 0 {
        assert forall|x: int| from <= x < p * (q + 1) implies !#[trigger] divides(p, x) by {
            if divides(p, x) {
                lemma_multiples_apart(p, x, p * (q + 1));
            }
        }
    }
}

/// Clears the cell of every multiple of `p` in the window `[m0, m1)`, starting at the first
/// multiple at or above `m0` and stepping by `p`.
fn mark_multiples(state: &mut Vec<bool>, m0: usize, m1: usize, p: usize)
    requires
        p > 0,
        m0 < m1,
        m1 + p <= usize::MAX,
        old(state)@.len() == m1 - m0,
    ensures
        final(state)@.len() == m1 - m0,
        forall|k: int|
            0 <= k < m1 - m0 ==> #[trigger] final(state)@[k] == (old(state)@[k] && !divides(
                p as int,
                m0 + k,
            )),
{
    proof {
        lemma_first_multiple(p as int, m0 as int);
    }
    let s: usize = if m0 % p == 0 {
        p * (m0 / p)
    } else {
        p * (m0 / p + 1)
    };
    let mut cur: usize = s;
    while cur < m1
        invariant
            p > 0,
            m0 < m1,
            m0 <= cur <= m1 + p,
            m1 + p <= usize::MAX,
            divides(p as int, cur as int),
            state@.len() == m1 - m0,
            old(state)@.len() == m1 - m0,
            forall|k: int|
                0 <= k < m1 - m0 ==> #[trigger] state@[k] == (old(state)@[k] && !(m0 + k < cur
                    && divides(p as int, m0 + k))),
        decreases m1 + p - cur,
    {
        let ghost here = cur as int;
        let ghost before = state@;
        state.set(cur - m0, false);
        cur = cur + p;
        proof {
            lemma_divides_next_multiple(p as int, here);
            assert forall|k: int| 0 <= k < m1 - m0 implies #[trigger] state@[k] == (old(state)@[k]
                && !(m0 + k < cur && divides(p as int, m0 + k))) by {
                assert(before[k] == (old(state)@[k] && !(m0 + k < here && divides(
                    p as int,
                    m0 + k,
                ))));
                if m0 + k > here && divides(p as int, m0 + k) {
                    lemma_multiples_apart(p as int, here, m0 + k);
                }
            }
        }
    }
}

/// Sieves the window `[m0, m1)` with the known primes: a cell stays set exactly when no known
/// prime divides its number.
fn sieve_window(primes: &Vec<usize>, m0: usize, m1: usize) -> (state: Vec<bool>)
    requires
        m0 < m1,
        forall|i: int| 0 <= i < primes@.len() ==> 0 < #[trigger] primes@[i] <= usize::MAX - m1,
    ensures
        state@.len() == m1 - m0,
        forall|k: int|
            0 <= k < m1 - m0 ==> #[trigger] state@[k] == !has_divisor_in(m0 + k, primes@),
{
    let width: usize = m1 - m0;
    let mut state: Vec<bool> = vec![true; width];
    let mut i: usize = 0;
    while i < primes.len()
        invariant
            m0 < m1,
            0 <= i <= primes@.len(),
            forall|i: int| 0 <= i < primes@.len() ==> 0 < #[trigger] primes@[i] <= usize::MAX - m1,
            state@.len() == m1 - m0,
            forall|k: int|
                0 <= k < m1 - m0 ==> #[trigger] state@[k] == !has_divisor_in(
                    m0 + k,
                    primes@.take(i as int),
                ),
        decreases primes@.len() - i,
    {
        let ghost before = state@;
        mark_multiples(&mut state, m0, m1, primes[i]);
        proof {
            let done = primes@.take(i as int);
            let next = primes@.take(i + 1);
            assert forall|k: int| 0 <= k < m1 - m0 implies #[trigger] state@[k]
                == !has_divisor_in(m0 + k, next) by {
                let x = m0 + k;
                assert(before[k] == !has_divisor_in(x, done));
                if has_divisor_in(x, done) {
                    let j = choose|j: int| 0 <= j < done.len() && divides(done[j] as int, x);
                    assert(divides(next[j] as int, x));
                }
                if divides(primes@[i as int] as int, x) {
                    assert(divides(next[i as int] as int, x));
                }
                if has_divisor_in(x, next) {
                    let j = choose|j: int| 0 <= j < next.len() && divides(next[j] as int, x);
                    if j < i {
                        assert(divides(done[j] as int, x));
                    }
                }
            }
        }
        i += 1;
    }
    proof {
        assert(primes@.take(primes@.len() as int) =~= primes@);
    }
    state
}

/// In a window that starts at `m0 >= 2` and ends by `2 * m0`, sieved with all primes below
/// `max(m0, 4)`, what no known prime divides is exactly the primes from `max(m0, 4)` on.
proof fn lemma_window_survivors(x: int, known: Seq<usize>, m0: int)
    requires
        2 <= m0 <= x < 2 * m0,
        ints(known) == primes_in(
            2,
            if m0 < 4 {
                4
            } else {
                m0
            },
        ),
    ensures
        !has_divisor_in(x, known) <==> prime(x) && x >= 4,
{
    let limit = if m0 < 4 {
        4
    } else {
        m0
    };
    lemma_primes_in(2, limit);
    if has_divisor_in(x, known) {
        let i = choose|i: int| 0 <= i < known.len() && divides(known[i] as int, x);
        assert(ints(known)[i] == known[i] as int);
        if prime(x) {
            lemma_prime_divisor_of_prime(known[i] as int, x);
        }
    } else if prime(x) {
        if x < limit {
            let i = choose|i: int| 0 <= i < ints(known).len() && ints(known)[i] == x;
            assert(known[i] as int == x);
            lemma_mod_self_0(x);
            assert(divides(known[i] as int, x));
        }
    } else {
        lemma_composite_has_small_prime_divisor(x);
        let q = choose|q: int| prime(q) && q * q <= x && #[trigger] divides(q, x);
        assert(q < limit) by (nonlinear_arith)
            requires
                q * q <= x,
                x < 2 * m0,
                limit >= 4,
                limit >= m0,
        ;
        let i = choose|i: int| 0 <= i < ints(known).len() && ints(known)[i] == q;
        assert(known[i] as int == q);
        assert(divides(known[i] as int, x));
    }
}

/// Returns the primes up to the integer square root of `max(n, 4)`, in ascending order and
/// always with 2 and 3: the first window is sieved in one array, every later window with the
/// primes found before it.
pub fn sieve(n: usize) -> (primes: Vec<usize>)
    ensures
        ints(primes@) == prime_base(n as int),
        n >= 9 ==> ints(primes@) == primes_up_to(isqrt(n as int)),
        is_prime_base(primes@),
        covers(primes@, n as int),
{
    let ghost asked = n as int;
    let n: usize = if n < 4 {
        4
    } else {
        n
    };
    let m: usize = integer_sqrt(n);
    let chunk_size: usize = if m < 1000 {
        m
    } else {
        1000
    };
    proof {
        assert(2 <= m && 2 * m + 8 <= usize::MAX) by (nonlinear_arith)
            requires
                m * m <= n,
                n < (m + 1) * (m + 1),
                n >= 4,
                n <= usize::MAX,
                usize::MAX >= 0xffff_ffff,
        ;
    }
    let mut primes: Vec<usize> = sieve0(chunk_size);
    let mut m0: usize = chunk_size;
    while m0 <= m
        invariant
            2 <= chunk_size <= m0 <= m + 1,
            2 * m + 8 <= usize::MAX,
            ints(primes@) == primes_in(
                2,
                if m0 < 4 {
                    4
                } else {
                    m0 as int
                },
            ),
        decreases m + 1 - m0,
    {
        let m1: usize = if m - m0 < chunk_size {
            m + 1
        } else {
            m0 + chunk_size
        };
        let ghost limit: int = if m0 < 4 {
            4
        } else {
            m0 as int
        };
        let ghost known = primes@;
        proof {
            lemma_primes_in(2, limit);
            assert forall|i: int| 0 <= i < primes@.len() implies 0 < #[trigger] primes@[i]
                <= usize::MAX - m1 by {
                assert(ints(primes@)[i] == primes@[i] as int);
            }
        }
        let state = sieve_window(&primes, m0, m1);
        proof {
            assert forall|k: int| 0 <= k < m1 - m0 implies #[trigger] state@[k] == (prime(m0 + k)
                && m0 + k >= 4) by {
                lemma_window_survivors(m0 + k, known, m0 as int);
            }
        }
        let mut k: usize = 0;
        while k < state.len()
            invariant
                0 <= k <= m1 - m0,
                m0 < m1 <= m + 1,
                2 * m + 8 <= usize::MAX,
                state@.len() == m1 - m0,
                limit == if m0 < 4 {
                    4
                } else {
                    m0 as int
                },
                forall|j: int|
                    0 <= j < m1 - m0 ==> #[trigger] state@[j] == (prime(m0 + j) && m0 + j >= 4),
                ints(primes@) == primes_in(
                    2,
                    if m0 + k < limit {
                        limit
                    } else {
                        m0 + k
                    },
                ),
            decreases m1 - m0 - k,
        {
            if state[k] {
                proof {
                    lemma_ints_push(primes@, (m0 + k) as usize);
                }
                primes.push(m0 + k);
            }
            k += 1;
        }
        m0 = m1;
    }
    proof {
        lemma_isqrt_compare(3, asked);
        lemma_isqrt_compare(3, n as int);
        if asked < 4 {
            lemma_isqrt_compare(2, n as int);
        }
        lemma_list_is_prime_base(primes@, base_bound(asked));
        lemma_base_covers(primes@, asked);
    }
    primes
}

/// The primes of one `sieve` call, handed out one by one from the smallest on. Once through,
/// it stays exhausted.
pub struct PrimeSieve {
    primes: Vec<usize>,
    index: usize,
}

impl PrimeSieve {
    /// The primes that are still to come, in the order in which they will come.
    pub closed spec fn remaining(&self) -> Seq<int> {
        ints(self.primes@).skip(self.index as int)
    }

    /// The cursor lies within the list or at its end.
    pub closed spec fn wf(&self) -> bool {
        self.index <= self.primes@.len()
    }

    /// Sieves for `n` and stands before the first prime.
    pub fn new(n: usize) -> (s: Self)
        ensures
            s.wf(),
            s.remaining() == prime_base(n as int),
    {
        let primes = sieve(n);
        proof {
            assert(ints(primes@).skip(0) =~= ints(primes@));
        }
        PrimeSieve { primes, index: 0 }
    }

    /// Yields the next prime of the list, or nothing once the list is through.
    pub fn next(&mut self) -> (r: Option<usize>)
        requires
            old(self).wf(),
        ensures
            final(self).wf(),
            takes_first(old(self).remaining(), final(self).remaining(), r),
    {
        if self.index < self.primes.len() {
            let p: usize = self.primes[self.index];
            proof {
                assert(ints(self.primes@).skip(self.index as int).drop_first() =~= ints(
                    self.primes@,
                ).skip(self.index + 1));
            }
            self.index += 1;
            Some(p)
        } else {
            None
        }
    }
}

} // verus!
