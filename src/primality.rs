//! The primality test: quick rejection by cached primes, then chunked
//! parallel trial division by odd numbers from where the cache leaves off.

use rayon::iter::IntoParallelRefIterator;
use rayon::iter::ParallelIterator;
use vstd::prelude::*;

use crate::arith::{
    divides, floor_sqrt, is_divisor, lemma_composite_has_small_prime_divisor, prime,
};
use crate::cache::{strictly_ascending, PrimeCache};

verus! {

/// How many odd candidates one parallel round of trial division examines.
pub const TRIAL_CHUNK: u64 = 128 * 1024;

/// Some element of `s` divides `n`.
pub open spec fn divisor_among(s: Seq<u64>, n: nat) -> bool {
    exists|i: int| 0 <= i < s.len() && #[trigger] divides(s[i] as nat, n)
}

/// Relies on rayon's `ParallelIterator::any` over a slice: true exactly when
/// some item satisfies the predicate.
#[verifier::external_body]
pub(crate) fn any_divisor_of(n: u64, candidates: &Vec<u64>) -> (r: bool)
    ensures
        r == divisor_among(candidates@, n as nat),
{
    candidates.par_iter().any(|d| is_divisor(*d, n))
}

/// Up to `count` numbers `lo, lo + step, lo + 2 * step, ...`, all below `limit`.
pub(crate) fn stepped_run(lo: u64, step: u64, limit: u64, count: u64) -> (r: Vec<u64>)
    requires
        1 <= step <= 2,
        1 <= count,
        limit < u64::MAX,
    ensures
        r@.len() <= count,
        lo < limit ==> r@.len() >= 1,
        r@.len() == count || lo + step * r@.len() >= limit,
        forall|i: int| 0 <= i < r@.len() ==> #[trigger] r@[i] == lo + step * i && r@[i] < limit,
{
    let mut r: Vec<u64> = Vec::new();
    let mut d: u64 = lo;
    let mut n: u64 = 0;
    while d < limit && n < count
        invariant
            1 <= step <= 2,
            limit < u64::MAX,
            n == r@.len(),
            n <= count,
            d == lo + step * n,
            forall|i: int| 0 <= i < r@.len() ==> #[trigger] r@[i] == lo + step * i && r@[i] < limit,
        decreases count - n,
    {
        r.push(d);
        proof {
            assert(step * (n + 1) == step * n + step) by (nonlinear_arith);
        }
        d = d + step;
        n = n + 1;
    }
    r
}

/// Whether some odd number from `start` up to, not including, `limit`
/// divides `n`. The candidates are examined `chunk` at a time, each chunk
/// in parallel, and the search stops after the first chunk with a hit.
pub fn has_odd_divisor(n: u64, start: u64, limit: u64, chunk: u64) -> (r: bool)
    requires
        start % 2 == 1,
        limit < u64::MAX,
        1 <= chunk,
    ensures
        r == exists|d: nat| start <= d < limit && d % 2 == 1 && #[trigger] divides(d, n as nat),
{
    let mut lo: u64 = start;
    while lo < limit
        invariant
            lo % 2 == 1,
            start <= lo,
            lo <= limit + 1 || lo == start,
            limit < u64::MAX,
            1 <= chunk,
            forall|d: nat| start <= d < lo && d % 2 == 1 ==> !#[trigger] divides(d, n as nat),
        decreases limit + 1 - lo,
    {
        let run = stepped_run(lo, 2, limit, chunk);
        if any_divisor_of(n, &run) {
            proof {
                let i = choose|i: int| 0 <= i < run@.len() && #[trigger] divides(run@[i] as nat, n as nat);
                let d = run@[i] as nat;
                assert(d % 2 == 1);
                assert(start <= d < limit && d % 2 == 1 && divides(d, n as nat));
            }
            return true;
        }
        proof {
            let k = run@.len() - 1;
            assert(run@[k] == lo + 2 * k);
        }
        let next = lo + 2 * run.len() as u64;
        proof {
            assert forall|d: nat| start <= d < next && d % 2 == 1 implies !#[trigger] divides(d, n as nat) by {
                if d >= lo {
                    let i = (d - lo) / 2;
                    assert(run@[i] == lo + 2 * i);
                }
            }
        }
        lo = next;
    }
    false
}

/// What one primality test of `n` does: `r` tells whether `n` is prime, and
/// the cache gains `n` exactly when `n` is a prime from 5 up not yet cached,
/// inserted among the primes already there, which keep their order.
pub open spec fn test_outcome(before: Seq<u64>, after: Seq<u64>, n: u64, r: bool) -> bool {
    &&& r == prime(n as nat)
    &&& if r && n >= 5 && !before.contains(n) {
        &&& after.to_set() == before.to_set().insert(n)
        &&& after.len() == before.len() + 1
        &&& exists|i: int| 0 <= i <= before.len() && after == before.insert(i, n)
    } else {
        after == before
    }
}

/// Decides whether `num` is prime. 2 and 3 are prime, multiples of 2 or 3
/// are not; otherwise a cached prime up to the square root rejects `num`,
/// or trial division by the odd numbers from the greatest cached prime (or 3)
/// up to the square root decides, and a prime found this way is cached.
pub fn is_prime(num: u64, cache: &mut PrimeCache) -> (r: bool)
    requires
        old(cache).wf(),
        old(cache).covers(num as nat),
    ensures
        final(cache).wf(),
        strictly_ascending(final(cache)@),
        test_outcome(old(cache)@, final(cache)@, num, r),
{
    proof {
        cache.lemma_odd_primes_ascending();
    }
    if num == 2 || num == 3 {
        proof {
            assert forall|d: nat| 2 <= d < num implies !#[trigger] divides(d, num as nat) by {}
        }
        return true;
    }
    if num < 2 || num % 2 == 0 || num % 3 == 0 {
        proof {
            if num >= 2 {
                if num % 2 == 0 {
                    assert(divides(2, num as nat));
                } else {
                    assert(divides(3, num as nat));
                }
            }
        }
        return false;
    }
    let root = floor_sqrt(num);
    proof {
        cache.lemma_odd_primes_ascending();
        if root >= 0x1_0000_0000 {
            assert(root * root >= 0x1_0000_0000 * 0x1_0000_0000) by (nonlinear_arith)
                requires root >= 0x1_0000_0000;
        }
        if root < 2 {
            assert((root + 1) * (root + 1) <= 4) by (nonlinear_arith) requires root < 2;
        }
        assert(root + 1 < root * root) by (nonlinear_arith) requires root >= 2;
    }
    let limit = root + 1;
    if cache.lookup_divisor(num, limit) {
        proof {
            let i = choose|i: int|
                0 <= i < cache@.len() && cache@[i] <= limit && #[trigger] divides(
                    cache@[i] as nat,
                    num as nat,
                );
            assert(prime(cache@[i] as nat));
            assert(2 <= cache@[i] < num);
        }
        return false;
    }
    let start = match cache.largest_known() {
        Some(p) => p,
        None => 3,
    };
    proof {
        if cache@.len() > 0 {
            assert(prime(cache@[cache@.len() - 1] as nat));
        }
    }
    if has_odd_divisor(num, start, limit, TRIAL_CHUNK) {
        proof {
            let d = choose|d: nat| start <= d < limit && d % 2 == 1 && #[trigger] divides(d, num as nat);
            if cache@.len() > 0 {
                assert(prime(cache@[cache@.len() - 1] as nat));
                assert(start != 2);
            }
            assert(2 <= d < num);
        }
        return false;
    }
    proof {
        if !prime(num as nat) {
            let p = lemma_composite_has_small_prime_divisor(num as nat);
            assert(p != 2);
            assert(p != 3);
            assert(p != 4) by {
                assert(divides(2, 4));
            }
            if p % 2 == 0 {
                crate::arith::lemma_divides_trans(2, p, num as nat);
            }
            assert(p < limit) by {
                if p >= limit {
                    assert(p * p >= limit * limit) by (nonlinear_arith) requires p >= limit;
                }
            }
            if p < cache.largest() {
                assert(cache@.contains(p as u64));
                let i = choose|i: int| 0 <= i < cache@.len() && cache@[i] == p as u64;
                assert(divides(cache@[i] as nat, num as nat));
                assert(false);
            } else {
                assert(start <= p);
                assert(divides(p, num as nat));
                assert(false);
            }
        }
    }
    cache.record(num);
    proof {
        cache.lemma_odd_primes_ascending();
    }
    true
}

} // verus!
