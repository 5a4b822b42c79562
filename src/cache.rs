//! The memo of proven primes: an ascending list and a membership set over
//! the same values, kept in lockstep by its only mutating operation.
//!
//! One search owns one cache and passes it by `&mut` from test to test; the
//! parallel parts of the search only read numbers, so the cache needs no lock.

use std::collections::HashSet;
use vstd::prelude::*;

use crate::arith::{divides, prime};

verus! {

broadcast use vstd::std_specs::hash::group_hash_axioms;

/// The list is strictly ascending.
pub open spec fn strictly_ascending(s: Seq<u64>) -> bool {
    forall|i: int, j: int| 0 <= i < j < s.len() ==> s[i] < s[j]
}

pub struct PrimeCache {
    primes: Vec<u64>,
    members: HashSet<u64>,
}

impl View for PrimeCache {
    type V = Seq<u64>;

    closed spec fn view(&self) -> Seq<u64> {
        self.primes@
    }
}

impl PrimeCache {
    /// Strictly ascending, every element an odd prime, and the membership
    /// set holding exactly the listed values.
    pub closed spec fn wf(&self) -> bool {
        &&& strictly_ascending(self.primes@)
        &&& forall|i: int|
            0 <= i < self.primes@.len() ==> prime(#[trigger] self.primes@[i] as nat)
                && self.primes@[i] % 2 == 1
        &&& self.members@ == self.primes@.to_set()
    }

    /// A well-formed cache lists odd primes in strictly ascending order.
    pub proof fn lemma_odd_primes_ascending(&self)
        requires
            self.wf(),
        ensures
            strictly_ascending(self@),
            forall|i: int|
                0 <= i < self@.len() ==> prime(#[trigger] self@[i] as nat) && self@[i] % 2 == 1,
    {
    }

    /// The greatest cached prime, or 0 when nothing is cached.
    pub open spec fn largest(&self) -> nat {
        if self@.len() == 0 {
            0
        } else {
            self@.last() as nat
        }
    }

    /// Every prime from 5 up, below the greatest cached prime, that divides
    /// `n` is cached. Only then may trial division of `n` resume at the
    /// greatest cached prime.
    pub open spec fn covers(&self, n: nat) -> bool {
        forall|p: nat|
            5 <= p < self.largest() && prime(p) && #[trigger] divides(p, n) ==> self@.contains(
                p as u64,
            )
    }

    /// An empty cache.
    pub fn new() -> (r: Self)
        ensures
            r.wf(),
            r@ == Seq::<u64>::empty(),
    {
        let r = PrimeCache { primes: Vec::new(), members: HashSet::new() };
        assert(r.primes@.to_set() =~= Set::<u64>::empty());
        r
    }

    /// The number of cached primes.
    pub fn len(&self) -> (r: usize)
        ensures
            r == self@.len(),
    {
        self.primes.len()
    }

    /// The cached prime at `index` in ascending order.
    pub fn get(&self, index: usize) -> (r: u64)
        requires
            index < self@.len(),
        ensures
            r == self@[index as int],
    {
        self.primes[index]
    }

    /// Whether `p` is cached.
    pub fn contains(&self, p: u64) -> (r: bool)
        requires
            self.wf(),
        ensures
            r == self@.contains(p),
    {
        self.members.contains(&p)
    }

    /// Whether some cached prime no greater than `limit` divides `n`.
    pub fn lookup_divisor(&self, n: u64, limit: u64) -> (r: bool)
        requires
            self.wf(),
        ensures
            r == exists|i: int|
                0 <= i < self@.len() && self@[i] <= limit && #[trigger] divides(
                    self@[i] as nat,
                    n as nat,
                ),
    {
        let mut i: usize = 0;
        while i < self.primes.len() && self.primes[i] <= limit
            invariant
                self.wf(),
                i <= self@.len(),
                forall|j: int|
                    0 <= j < i ==> !(self@[j] <= limit && #[trigger] divides(
                        self@[j] as nat,
                        n as nat,
                    )),
            decreases self@.len() - i,
        {
            if n % self.primes[i] == 0 {
                assert(divides(self@[i as int] as nat, n as nat));
                return true;
            }
            i = i + 1;
        }
        proof {
            if i < self@.len() {
                assert forall|j: int| i <= j < self@.len() implies self@[j] > limit by {
                    if j > i {
                        assert(self@[i as int] < self@[j]);
                    }
                }
            }
        }
        false
    }

    /// The greatest cached prime, if any.
    pub fn largest_known(&self) -> (r: Option<u64>)
        requires
            self.wf(),
        ensures
            self@.len() == 0 <==> r.is_none(),
            r matches Some(p) ==> p == self@.last() && p == self.largest(),
    {
        if self.primes.len() == 0 {
            None
        } else {
            Some(self.primes[self.primes.len() - 1])
        }
    }

    /// Caches the odd prime `p`; a prime already cached leaves the cache as
    /// it was.
    pub fn record(&mut self, p: u64)
        requires
            old(self).wf(),
            prime(p as nat),
            p % 2 == 1,
        ensures
            final(self).wf(),
            strictly_ascending(final(self)@),
            final(self)@.to_set() == old(self)@.to_set().insert(p),
            old(self)@.contains(p) ==> final(self)@ == old(self)@,
            !old(self)@.contains(p) ==> final(self)@.len() == old(self)@.len() + 1,
            !old(self)@.contains(p) ==> exists|i: int|
                0 <= i <= old(self)@.len() && final(self)@ == old(self)@.insert(i, p),
    {
        if self.members.contains(&p) {
            return;
        }
        let mut pos: usize = 0;
        while pos < self.primes.len() && self.primes[pos] < p
            invariant
                self.wf(),
                pos <= self@.len(),
                forall|j: int| 0 <= j < pos ==> self@[j] < p,
            decreases self@.len() - pos,
        {
            pos = pos + 1;
        }
        let ghost before = self.primes@;
        proof {
            assert forall|j: int| pos <= j < before.len() implies before[j] > p by {
                assert(before[pos as int] >= p);
                assert(before[pos as int] != p) by {
                    assert(before.to_set().contains(before[pos as int]));
                }
                if j > pos {
                    assert(before[pos as int] < before[j]);
                }
            }
        }
        self.primes.insert(pos, p);
        self.members.insert(p);
        proof {
            let after = self.primes@;
            assert(after == before.insert(pos as int, p));
            assert(0 <= pos <= before.len());
            assert forall|i: int| 0 <= i < after.len() implies prime(#[trigger] after[i] as nat)
                && after[i] % 2 == 1 by {
                if i > pos {
                    assert(after[i] == before[i - 1]);
                } else if i < pos {
                    assert(after[i] == before[i]);
                }
            }
            assert(after.to_set() == before.to_set().insert(p)) by {
                assert forall|x: u64| after.to_set().contains(x) <==> before.to_set().insert(
                    p,
                ).contains(x) by {
                    if after.to_set().contains(x) {
                        let i = choose|i: int| 0 <= i < after.len() && after[i] == x;
                        if i > pos {
                            assert(before[i - 1] == x);
                        } else if i < pos {
                            assert(before[i] == x);
                        }
                    }
                    if before.to_set().contains(x) {
                        let i = choose|i: int| 0 <= i < before.len() && before[i] == x;
                        if i >= pos {
                            assert(after[i + 1] == x);
                        } else {
                            assert(after[i] == x);
                        }
                    }
                    if x == p {
                        assert(after[pos as int] == p);
                    }
                }
            }
        }
    }
}

} // verus!
