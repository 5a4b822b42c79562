use semiprime::cache::PrimeCache;
use semiprime::primality::{has_odd_divisor, is_prime};
use semiprime::search::{factorize, factorize_prog};

#[test]
pub fn test_it() {
    let n11: u64 = 11;
    let n13: u64 = 13;
    let n370373: u64 = 370373;
    let n336703: u64 = 336703;

    let n_small = n11 * n13;
    let n_bigger = n370373 * n336703;
    let n_same = n11 * n11;
    assert_eq!(factorize(n_small), Some((n11, n13)));
    assert_eq!(factorize(n_bigger), Some((n336703, n370373)));
    assert_eq!(factorize(n_same), Some((n11, n11)));
}

fn is_prime_fresh(n: u64) -> bool {
    let mut cache = PrimeCache::new();
    is_prime(n, &mut cache)
}

#[test]
fn primality_of_small_numbers() {
    assert!(is_prime_fresh(2));
    assert!(is_prime_fresh(3));
    assert!(!is_prime_fresh(4));
    assert!(!is_prime_fresh(9));
    assert!(!is_prime_fresh(341));
    assert!(is_prime_fresh(97));
}

#[test]
fn zero_and_one_are_not_prime() {
    assert!(!is_prime_fresh(0));
    assert!(!is_prime_fresh(1));
}

#[test]
fn primality_of_larger_numbers() {
    assert!(is_prime_fresh(336703));
    assert!(is_prime_fresh(370373));
    assert!(!is_prime_fresh(336703 * 370373));
    assert!(is_prime_fresh(4294967291));
    assert!(!is_prime_fresh(4294967291 * 3));
}

#[test]
fn prime_is_cached_once() {
    let mut cache = PrimeCache::new();
    assert!(is_prime(97, &mut cache));
    assert_eq!(cache.len(), 1);
    assert!(cache.contains(97));
    assert!(is_prime(97, &mut cache));
    assert_eq!(cache.len(), 1);
    assert_eq!(cache.get(0), 97);
}

#[test]
fn composites_and_small_primes_are_not_cached() {
    let mut cache = PrimeCache::new();
    assert!(!is_prime(341, &mut cache));
    assert!(is_prime(2, &mut cache));
    assert!(is_prime(3, &mut cache));
    assert_eq!(cache.len(), 0);
    assert_eq!(cache.largest_known(), None);
}

#[test]
fn cache_stays_ascending() {
    let mut cache = PrimeCache::new();
    cache.record(13);
    cache.record(5);
    cache.record(11);
    cache.record(5);
    cache.record(7);
    assert_eq!(cache.len(), 4);
    assert_eq!(cache.get(0), 5);
    assert_eq!(cache.get(1), 7);
    assert_eq!(cache.get(2), 11);
    assert_eq!(cache.get(3), 13);
    assert_eq!(cache.largest_known(), Some(13));
}

#[test]
fn cached_prime_rejects_multiple() {
    let mut cache = PrimeCache::new();
    cache.record(5);
    cache.record(7);
    assert!(cache.lookup_divisor(49, 8));
    assert!(!cache.lookup_divisor(49, 6));
    assert!(!cache.lookup_divisor(121, 12));
    let mut c2 = PrimeCache::new();
    c2.record(5);
    assert!(!is_prime(25, &mut c2));
    assert!(!is_prime(35, &mut c2));
    assert!(is_prime(37, &mut c2));
    assert_eq!(c2.largest_known(), Some(37));
}

#[test]
fn odd_divisor_search() {
    assert!(has_odd_divisor(91, 3, 10, 2));
    assert!(!has_odd_divisor(97, 3, 10, 2));
    assert!(!has_odd_divisor(91, 9, 13, 1));
    assert!(has_odd_divisor(91, 13, 14, 1));
    assert!(!has_odd_divisor(91, 21, 3, 4));
}

#[test]
fn prime_has_no_factor_pair() {
    assert_eq!(factorize(17), None);
    assert_eq!(factorize(97), None);
    assert_eq!(factorize(4294967291), None);
}

#[test]
fn small_inputs_have_no_factor_pair() {
    assert_eq!(factorize(0), None);
    assert_eq!(factorize(1), None);
    assert_eq!(factorize(4), None);
    assert_eq!(factorize(6), None);
    assert_eq!(factorize(8), None);
}

#[test]
fn smallest_odd_prime_factors() {
    assert_eq!(factorize(9), Some((3, 3)));
    assert_eq!(factorize(15), Some((3, 5)));
    assert_eq!(factorize(35), Some((5, 7)));
}

#[test]
fn three_prime_factors_have_no_pair() {
    assert_eq!(factorize(5 * 7 * 11), None);
    assert_eq!(factorize(2 * 7 * 11), None);
}

#[test]
fn repeated_factorize_agrees() {
    let n: u64 = 336703 * 370373;
    let first = factorize(n);
    let second = factorize(n);
    assert_eq!(first, second);
    let (a, b) = first.unwrap();
    assert_eq!(a * b, n);
    assert!(is_prime_fresh(a));
    assert!(is_prime_fresh(b));
}

#[test]
fn semiprime_of_distant_primes() {
    assert_eq!(factorize(3 * 4294967291), Some((3, 4294967291)));
    assert_eq!(factorize(65521 * 65537), Some((65521, 65537)));
}

#[test]
fn progress_variant_matches() {
    let (r, marks) = factorize_prog(143);
    assert_eq!(r, Some((11, 13)));
    assert_eq!(marks, (3..12).collect::<Vec<u64>>());
    let (r, marks) = factorize_prog(336703 * 370373);
    assert_eq!(r, Some((336703, 370373)));
    assert_eq!(marks, (1..96).collect::<Vec<u64>>());
}

#[test]
fn progress_counts_whole_range_when_nothing_found() {
    let (r, marks) = factorize_prog(10000);
    assert_eq!(r, None);
    assert_eq!(marks, (3..101).collect::<Vec<u64>>());
    let (r, marks) = factorize_prog(302 * 302);
    assert_eq!(r, None);
    assert_eq!(marks, (1..101).collect::<Vec<u64>>());
    let (r, marks) = factorize_prog(5);
    assert_eq!(r, None);
    assert!(marks.is_empty());
}
