//! Splitting a number into two primes by trial division.
//!
//! `search::factorize` tries the divisors from 3 up to the square root of
//! `n` in ascending chunks, each chunk checked in parallel, and returns the
//! least divisor that is prime and leaves a prime cofactor. Primality is
//! decided by `primality::is_prime`, which consults and grows a
//! `cache::PrimeCache` of the primes proven so far in that search. Numbers
//! are `u64`: trial division of a larger prime would take more than 2^32
//! divisions, so callers holding big integers convert at the edge. The laws that relate these functions are in `laws`.

pub mod arith;
pub mod cache;
pub mod primality;
pub mod search;
pub mod laws;
