//! The memoized Fibonacci helper: a recursive computation over a cache
//! that always holds a prefix of the Fibonacci sequence.

use vstd::prelude::*;

verus! {

/// The Fibonacci numbers, 1-based: the first and second are 1, and every
/// later one is the sum of the two before it.
pub open spec fn fib_spec(n: nat) -> nat
    decreases n,
{
    if n < 3 {
        1
    } else {
        fib_spec((n - 2) as nat) + fib_spec((n - 1) as nat)
    }
}

/// The Fibonacci sequence never decreases.
pub proof fn lemma_fib_monotonic(i: nat, j: nat)
    requires
        i <= j,
    ensures
        fib_spec(i) <= fib_spec(j),
    decreases j,
{
    if i < j {
        lemma_fib_monotonic(i, (j - 1) as nat);
    }
}

/// The cache holds, in order, the Fibonacci numbers from the first on.
pub open spec fn cache_valid(c: Seq<u128>) -> bool {
    c.len() >= 2 && forall|i: int| 0 <= i < c.len() ==> c[i] == fib_spec((i + 1) as nat)
}

/// Returns the `n`-th Fibonacci number, reading it from the cache when it
/// is already there and otherwise extending the cache up to `n`.
pub fn rec_fib(n: usize, cache: &mut Vec<u128>) -> (r: u128)
    requires
        1 <= n,
        cache_valid(old(cache)@),
        fib_spec(n as nat) <= u128::MAX,
    ensures
        cache_valid(final (cache)@),
        final (cache)@.len() == if old(cache)@.len() >= n {
            old(cache)@.len() as int
        } else {
            n as int
        },
        r == fib_spec(n as nat),
    decreases n,
{
    if cache.len() >= n {
        cache[n - 1]
    } else {
        proof {
            lemma_fib_monotonic((n - 2) as nat, n as nat);
            lemma_fib_monotonic((n - 1) as nat, n as nat);
        }
        let a = rec_fib(n - 2, cache);
        let b = rec_fib(n - 1, cache);
        let fib_value = a + b;
        cache.insert(n - 1, fib_value);
        cache[n - 1]
    }
}

/// Returns the `n`-th Fibonacci number, computed through a fresh cache.
pub fn fib(n: usize) -> (r: u128)
    requires
        1 <= n,
        fib_spec(n as nat) <= u128::MAX,
    ensures
        r == fib_spec(n as nat),
{
    let mut cache: Vec<u128> = Vec::new();
    cache.push(1);
    cache.push(1);
    rec_fib(n, &mut cache)
}

} // verus!
