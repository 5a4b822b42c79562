//! Divisibility and primality on natural numbers, and the few exact
//! integer operations the search needs.

use vstd::prelude::*;

verus! {

/// `d` divides `n` (a zero divisor divides nothing).
pub open spec fn divides(d: nat, n: nat) -> bool {
    d != 0 && n % d == 0
}

/// `n` is prime: at least 2, with no divisor strictly between 1 and `n`.
pub open spec fn prime(n: nat) -> bool {
    n >= 2 && forall|d: nat| 2 <= d < n ==> !#[trigger] divides(d, n)
}

/// Divisibility is transitive.
pub proof fn lemma_divides_trans(a: nat, b: nat, c: nat)
    requires
        divides(a, b),
        divides(b, c),
    ensures
        divides(a, c),
{
    let x = b / a;
    let y = c / b;
    vstd::arithmetic::div_mod::lemma_fundamental_div_mod(b as int, a as int);
    vstd::arithmetic::div_mod::lemma_fundamental_div_mod(c as int, b as int);
    assert(c == a * (x * y)) by (nonlinear_arith)
        requires
            b == a * x,
            c == b * y,
    ;
    vstd::arithmetic::div_mod::lemma_mod_multiples_basic((x * y) as int, a as int);
    assert(a * (x * y) == (x * y) * a) by (nonlinear_arith);
}

/// The divisor `n / d` of `n`, when `d` divides `n`.
pub proof fn lemma_cofactor(d: nat, n: nat)
    requires
        divides(d, n),
        n > 0,
    ensures
        n == d * (n / d),
        n / d > 0,
        divides(n / d, n),
{
    vstd::arithmetic::div_mod::lemma_fundamental_div_mod(n as int, d as int);
    let k = n / d;
    if k == 0 {
        assert(d * k == 0) by (nonlinear_arith) requires k == 0;
    }
    vstd::arithmetic::div_mod::lemma_mod_multiples_basic(d as int, k as int);
    assert(d * k == k * d) by (nonlinear_arith);
}

/// The least divisor of `n` that is at least `d` (`n` itself if none is smaller).
spec fn least_divisor_from(n: nat, d: nat) -> nat
    decreases n - d,
{
    if d >= n {
        n
    } else if n % d == 0 {
        d
    } else {
        least_divisor_from(n, d + 1)
    }
}

proof fn lemma_least_divisor_from(n: nat, d: nat)
    requires
        2 <= d <= n,
        forall|e: nat| 2 <= e < d ==> !#[trigger] divides(e, n),
    ensures
        d <= least_divisor_from(n, d) <= n,
        divides(least_divisor_from(n, d), n),
        forall|e: nat| 2 <= e < least_divisor_from(n, d) ==> !#[trigger] divides(e, n),
    decreases n - d,
{
    if d >= n {
        vstd::arithmetic::div_mod::lemma_mod_self_0(n as int);
    } else if n % d == 0 {
    } else {
        assert forall|e: nat| 2 <= e < d + 1 implies !#[trigger] divides(e, n) by {
            if e == d {
            }
        }
        lemma_least_divisor_from(n, d + 1);
    }
}

/// Every number from 2 up that is not prime has a prime divisor whose
/// square does not exceed it.
pub proof fn lemma_composite_has_small_prime_divisor(n: nat) -> (p: nat)
    requires
        n >= 2,
        !prime(n),
    ensures
        prime(p),
        divides(p, n),
        p * p <= n,
{
    assert forall|e: nat| 2 <= e < 2 implies !#[trigger] divides(e, n) by {}
    lemma_least_divisor_from(n, 2);
    let p = least_divisor_from(n, 2);
    assert forall|q: nat| 2 <= q < p implies !#[trigger] divides(q, p) by {
        if divides(q, p) {
            lemma_divides_trans(q, p, n);
        }
    }
    if p == n {
        assert(prime(n));
    }
    lemma_cofactor(p, n);
    let k = n / p;
    if k < p {
        if k == 1 {
            assert(p * 1 == p);
        }
        assert(!divides(k, n));
    }
    assert(p * p <= p * k) by (nonlinear_arith) requires p <= k;
    p
}

/// Relies on `num::integer::sqrt` for `u64`: the truncated square root.
#[verifier::external_body]
pub(crate) fn floor_sqrt(n: u64) -> (r: u64)
    ensures
        r * r <= n,
        n < (r + 1) * (r + 1),
{
    num::integer::sqrt(n)
}

/// Whether `d` divides `n`.
pub fn is_divisor(d: u64, n: u64) -> (r: bool)
    ensures
        r == divides(d as nat, n as nat),
{
    d != 0 && n % d == 0
}

} // verus!
