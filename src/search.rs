//! The factor search: candidate divisors from 3 up to the square root of
//! `n`, in ascending chunks. A chunk is first checked in parallel for any
//! divisor of `n`; a chunk with one is walked in order, and the first
//! divisor that is prime and leaves a prime cofactor ends the search.

use vstd::prelude::*;

use crate::arith::{divides, floor_sqrt, lemma_cofactor, lemma_divides_trans, prime};
use crate::cache::PrimeCache;
use crate::primality::{any_divisor_of, is_prime, stepped_run};

verus! {

/// How many candidate divisors one parallel round of the search examines.
pub const SEARCH_CHUNK: u64 = 128 * 1024;

/// The chunk size of the search that reports its progress.
pub const PROGRESS_CHUNK: u64 = 1024;

/// `d` splits `n` into two primes: `d` is from 3 up, its square does not
/// exceed `n`, it divides `n`, and both `d` and `n / d` are prime.
pub open spec fn is_split(n: nat, d: nat) -> bool {
    3 <= d && d * d <= n && divides(d, n) && prime(d) && prime(n / d)
}

/// `r` is the answer for `n`: the pair made by the least divisor that
/// splits `n`, or none when no divisor does.
pub open spec fn is_factorization_of(n: nat, r: Option<(u64, u64)>) -> bool {
    match r {
        Some((a, b)) => {
            &&& is_split(n, a as nat)
            &&& b as nat == n / (a as nat)
            &&& forall|d: nat| 3 <= d < a ==> !#[trigger] is_split(n, d)
        },
        None => forall|d: nat| !#[trigger] is_split(n, d),
    }
}

/// The cache holds exactly the primes from 5 up, below `lo`, that divide `n`.
spec fn holds_prime_divisors_below(s: Seq<u64>, n: nat, lo: nat) -> bool {
    forall|p: u64|
        #[trigger] s.contains(p) <==> (5 <= p < lo && prime(p as nat) && divides(p as nat, n))
}

proof fn lemma_fresh_cache_covers(cache: &PrimeCache, n: nat, lo: nat, m: nat)
    requires
        cache.wf(),
        holds_prime_divisors_below(cache@, n, lo),
        divides(m, n),
    ensures
        cache.covers(m),
        cache.largest() < lo || cache@.len() == 0,
{
    if cache@.len() > 0 {
        let last = cache@.last();
        assert(cache@.contains(last));
    }
    assert forall|p: nat|
        5 <= p < cache.largest() && prime(p) && #[trigger] divides(p, m) implies cache@.contains(
        p as u64,
    ) by {
        lemma_divides_trans(p, m, n);
        assert(cache@.contains(cache@.last()));
    }
}

/// The search with candidates examined `chunk` at a time.
fn search(n: u64, chunk: u64) -> (r: Option<(u64, u64)>)
    requires
        1 <= chunk,
    ensures
        is_factorization_of(n as nat, r),
{
    let root = floor_sqrt(n);
    proof {
        if root >= 0x1_0000_0000 {
            assert(root * root >= 0x1_0000_0000 * 0x1_0000_0000) by (nonlinear_arith)
                requires root >= 0x1_0000_0000;
        }
    }
    let mut cache = PrimeCache::new();
    let mut lo: u64 = 3;
    while lo <= root
        invariant
            3 <= lo,
            lo <= root + 1 || lo == 3,
            root < 0x1_0000_0000,
            root * root <= n,
            n < (root + 1) * (root + 1),
            1 <= chunk,
            cache.wf(),
            holds_prime_divisors_below(cache@, n as nat, lo as nat),
            forall|d: nat| 3 <= d < lo ==> !#[trigger] is_split(n as nat, d),
        decreases root + 1 - lo,
    {
        let run = stepped_run(lo, 1, root + 1, chunk);
        proof {
            assert(root * root >= 9) by (nonlinear_arith) requires root >= 3;
            let k = run@.len() - 1;
            assert(run@[k] == lo + k);
        }
        if any_divisor_of(n, &run) {
            let mut i: usize = 0;
            while i < run.len()
                invariant
                    3 <= lo <= root,
                    n >= 9,
                    root < 0x1_0000_0000,
                    root * root <= n,
                    i <= run@.len(),
                    forall|j: int| 0 <= j < run@.len() ==> #[trigger] run@[j] == lo + j && run@[j] < root + 1,
                    cache.wf(),
                    holds_prime_divisors_below(cache@, n as nat, (lo + i) as nat),
                    forall|d: nat| 3 <= d < lo + i ==> !#[trigger] is_split(n as nat, d),
                decreases run@.len() - i,
            {
                let d = run[i];
                assert(d == lo + i);
                proof {
                    assert(d * d <= root * root) by (nonlinear_arith) requires d <= root;
                }
                if n % d == 0 {
                    let c = n / d;
                    proof {
                        lemma_cofactor(d as nat, n as nat);
                        lemma_fresh_cache_covers(&cache, n as nat, d as nat, d as nat);
                    }
                    let ghost before = cache@;
                    if is_prime(d, &mut cache) {
                        proof {
                            assert(holds_prime_divisors_below(cache@, n as nat, (d + 1) as nat)) by {
                                assert forall|p: u64| #[trigger] cache@.contains(p) <==> (5 <= p < d + 1
                                    && prime(p as nat) && divides(p as nat, n as nat)) by {
                                    if d >= 5 && !before.contains(d) {
                                        assert(cache@.to_set().contains(p) == before.to_set().insert(d).contains(p));
                                    }
                                }
                            }
                            lemma_fresh_cache_covers(&cache, n as nat, (d + 1) as nat, c as nat);
                        }
                        let ghost middle = cache@;
                        if is_prime(c, &mut cache) {
                            return Some((d, c));
                        }
                        assert(cache@ == middle);
                    } else {
                        assert(cache@ == before);
                    }
                }
                proof {
                    assert(!is_split(n as nat, d as nat));
                    assert forall|p: u64| #[trigger] cache@.contains(p) <==> (5 <= p < d + 1
                        && prime(p as nat) && divides(p as nat, n as nat)) by {
                        if p == d {
                        }
                    }
                }
                i = i + 1;
            }
        } else {
            proof {
                assert forall|p: u64| #[trigger] cache@.contains(p) <==> (5 <= p < lo + run@.len()
                    && prime(p as nat) && divides(p as nat, n as nat)) by {
                    if lo <= p < lo + run@.len() {
                        assert(run@[p - lo] == p);
                    }
                }
                assert forall|d: nat| 3 <= d < lo + run@.len() implies !#[trigger] is_split(n as nat, d) by {
                    if lo <= d {
                        assert(run@[d - lo] == d);
                    }
                }
            }
        }
        lo = lo + run.len() as u64;
    }
    proof {
        assert forall|d: nat| !#[trigger] is_split(n as nat, d) by {
            if d > root {
                assert(d * d >= (root + 1) * (root + 1)) by (nonlinear_arith) requires d >= root + 1;
            }
        }
    }
    None
}

/// Splits `num` into two primes by trial division, with a fresh cache of
/// proven primes: the least divisor from 3 up to the square root of `num`
/// that is prime and leaves a prime cofactor, with that cofactor; none if
/// no such divisor exists. None does not tell a prime from a number with no
/// such split (more than two prime factors, or an even number, whose split
/// would need 2).
pub fn factorize(num: u64) -> (r: Option<(u64, u64)>)
    ensures
        is_factorization_of(num as nat, r),
{
    search(num, SEARCH_CHUNK)
}

/// The greatest `t <= s` whose square does not exceed `n` (0 if none).
pub open spec fn sqrt_at_most(n: nat, s: nat) -> nat
    decreases s,
{
    if s == 0 || s * s <= n {
        s
    } else {
        sqrt_at_most(n, (s - 1) as nat)
    }
}

/// The truncated square root of `n`.
pub open spec fn floor_sqrt_of(n: nat) -> nat {
    sqrt_at_most(n, n)
}

proof fn lemma_floor_sqrt_of(n: nat, r: nat, s: nat)
    requires
        r * r <= n,
        n < (r + 1) * (r + 1),
        r <= s,
    ensures
        sqrt_at_most(n, s) == r,
    decreases s,
{
    if s > r {
        assert(s * s >= (r + 1) * (r + 1)) by (nonlinear_arith) requires s >= r + 1;
        lemma_floor_sqrt_of(n, r, (s - 1) as nat);
    }
}

/// The spacing of progress notifications: a hundredth of the number of
/// candidate divisors, and at least 1.
pub open spec fn progress_step(n: nat) -> nat {
    let size: nat = if floor_sqrt_of(n) >= 3 {
        (floor_sqrt_of(n) - 2) as nat
    } else {
        0
    };
    if size / 100 == 0 {
        1
    } else {
        size / 100
    }
}

/// The last candidate divisor the search reaches: the accepted one, or the
/// square root when none is accepted.
pub open spec fn last_examined(n: nat, r: Option<(u64, u64)>) -> nat {
    match r {
        Some((a, _)) => a as nat,
        None => floor_sqrt_of(n),
    }
}

/// The progress notifications for the candidates `d` from `from` to `last`:
/// in ascending order, `d / step` for each `d` that is a multiple of `step`.
pub open spec fn marks_from(from: nat, last: nat, step: nat) -> Seq<u64>
    decreases last + 1 - from,
{
    if from > last || step == 0 {
        Seq::empty()
    } else if from % step == 0 {
        seq![(from / step) as u64] + marks_from(from + 1, last, step)
    } else {
        marks_from(from + 1, last, step)
    }
}

/// The progress notifications of a search that ended with `r`: for each
/// candidate `d` from 3 to the last one reached that is a multiple of the
/// step, in ascending order, `d / step`.
pub open spec fn progress_marks(n: nat, r: Option<(u64, u64)>) -> Seq<u64> {
    marks_from(3, last_examined(n, r), progress_step(n))
}

/// `factorize`, with smaller chunks, that also hands back its progress
/// notifications, in order, for the caller to report.
pub fn factorize_prog(num: u64) -> (r: (Option<(u64, u64)>, Vec<u64>))
    ensures
        is_factorization_of(num as nat, r.0),
        r.1@ == progress_marks(num as nat, r.0),
{
    let found = search(num, PROGRESS_CHUNK);
    let root = floor_sqrt(num);
    proof {
        if root > num {
            assert(root * root >= root) by (nonlinear_arith) requires root >= 1;
        }
        lemma_floor_sqrt_of(num as nat, root as nat, num as nat);
    }
    let size: u64 = if root >= 3 {
        root - 2
    } else {
        0
    };
    let step: u64 = if size / 100 == 0 {
        1
    } else {
        size / 100
    };
    let last: u64 = match found {
        Some((a, _)) => a,
        None => root,
    };
    proof {
        if root >= 0x1_0000_0000 {
            assert(root * root >= 0x1_0000_0000 * 0x1_0000_0000) by (nonlinear_arith)
                requires root >= 0x1_0000_0000;
        }
        if let Some((a, _)) = found {
            assert(a <= root) by {
                if a > root {
                    assert(a * a >= (root + 1) * (root + 1)) by (nonlinear_arith)
                        requires a >= root + 1;
                }
            }
        }
    }
    let mut marks: Vec<u64> = Vec::new();
    let mut d: u64 = 3;
    while d <= last
        invariant
            3 <= d,
            d <= last + 1 || d == 3,
            last < 0x1_0000_0000,
            step >= 1,
            marks@ + marks_from(d as nat, last as nat, step as nat) == marks_from(
                3,
                last as nat,
                step as nat,
            ),
        decreases last + 1 - d,
    {
        let ghost before = marks@;
        if d % step == 0 {
            marks.push(d / step);
            assert(marks@ == before + seq![(d / step) as u64]);
        }
        assert(marks@ + marks_from((d + 1) as nat, last as nat, step as nat) =~= before
            + marks_from(d as nat, last as nat, step as nat));
        d = d + 1;
    }
    assert(marks@ =~= marks@ + marks_from(d as nat, last as nat, step as nat));
    (found, marks)
}

} // verus!
