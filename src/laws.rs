//! What holds of the factor search and of the primality test across inputs
//! and across calls.

use vstd::prelude::*;

use crate::arith::{divides, lemma_cofactor, prime};
use crate::primality::test_outcome;
use crate::search::{is_factorization_of, is_split};

verus! {

/// The product of two primes `p <= q`, with `p` from 3 up, is split by the
/// search into two primes whose product it is.
pub proof fn law_semiprime_is_split(p: nat, q: nat, r: Option<(u64, u64)>)
    requires
        prime(p),
        prime(q),
        3 <= p <= q,
        is_factorization_of(p * q, r),
    ensures
        r matches Some((a, b)) && a * b == p * q && prime(a as nat) && prime(b as nat),
{
    let n = p * q;
    assert(p * p <= p * q) by (nonlinear_arith) requires p <= q;
    vstd::arithmetic::div_mod::lemma_mod_multiples_basic(q as int, p as int);
    assert(q * p == p * q) by (nonlinear_arith);
    vstd::arithmetic::div_mod::lemma_div_multiples_vanish(q as int, p as int);
    assert(is_split(n, p));
    if let Some((a, b)) = r {
        assert(n > 0) by (nonlinear_arith) requires p >= 3, q >= 3, n == p * q;
        lemma_cofactor(a as nat, n);
    }
}

/// A prime has no split: the search finds nothing.
pub proof fn law_prime_has_no_split(p: nat, r: Option<(u64, u64)>)
    requires
        prime(p),
        is_factorization_of(p, r),
    ensures
        r is None,
{
    if let Some((a, _)) = r {
        let d = a as nat;
        assert(d < d * d) by (nonlinear_arith) requires d >= 3;
        assert(divides(d, p));
        assert(false);
    }
}

/// The answer for `n` is unique, so every search of `n` gives the same one,
/// and a pair found multiplies back to `n` with both parts prime.
pub proof fn law_factorization_is_unique(n: nat, r1: Option<(u64, u64)>, r2: Option<(u64, u64)>)
    requires
        is_factorization_of(n, r1),
        is_factorization_of(n, r2),
    ensures
        r1 == r2,
        r1 matches Some((a, b)) ==> a * b == n && prime(a as nat) && prime(b as nat),
{
    match (r1, r2) {
        (Some((a1, _)), Some((a2, _))) => {
            if a1 < a2 {
                assert(is_split(n, a1 as nat));
            } else if a2 < a1 {
                assert(is_split(n, a2 as nat));
            }
        },
        (Some((a1, _)), None) => {
            assert(is_split(n, a1 as nat));
        },
        (None, Some((a2, _))) => {
            assert(is_split(n, a2 as nat));
        },
        (None, None) => {},
    }
    if let Some((a, b)) = r1 {
        assert(n >= 9) by (nonlinear_arith) requires a >= 3, a * a <= n;
        lemma_cofactor(a as nat, n);
    }
}

/// A primality test only ever adds to the cache, by at most one prime, and
/// only a prime; what was cached stays, in the same order.
pub proof fn law_test_only_grows(before: Seq<u64>, after: Seq<u64>, n: u64, r: bool)
    requires
        test_outcome(before, after, n, r),
    ensures
        before.to_set().subset_of(after.to_set()),
        after.len() <= before.len() + 1,
        after == before || (prime(n as nat) && exists|i: int|
            0 <= i <= before.len() && after == before.insert(i, n)),
{
}

/// Testing the same number twice gives the same answer both times, and the
/// second test leaves the cache as the first left it; over both, the cache
/// gains at most one prime.
pub proof fn law_retest_agrees(
    s0: Seq<u64>,
    s1: Seq<u64>,
    s2: Seq<u64>,
    n: u64,
    r1: bool,
    r2: bool,
)
    requires
        test_outcome(s0, s1, n, r1),
        test_outcome(s1, s2, n, r2),
    ensures
        r1 == r2,
        s2 == s1,
        s2.len() <= s0.len() + 1,
{
    if r1 && n >= 5 && !s0.contains(n) {
        assert(s1.to_set().contains(n));
    }
}

} // verus!
