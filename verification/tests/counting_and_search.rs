use prime_sieve::{
    lower_bound_for_nth_prime, nth_prime, upper_bound_for_nth_prime, LegendrePrimeCounter,
};

fn count(n: usize) -> usize {
    let counter = LegendrePrimeCounter::new(upper_bound_for_nth_prime(n.max(1)));
    counter.count_primes(n)
}

#[test]
fn count_primes_small_reference_values() {
    assert_eq!(count(1), 0);
    assert_eq!(count(10), 4);
    assert_eq!(count(100), 25);
    assert_eq!(count(1_000), 168);
    assert_eq!(count(10_000), 1_229);
}

#[test]
fn count_primes_hundred_thousand() {
    assert_eq!(count(100_000), 9_592);
}

#[test]
fn count_primes_one_million() {
    assert_eq!(count(1_000_000), 78_498);
}

#[test]
fn count_primes_ten_million() {
    assert_eq!(count(10_000_000), 664_579);
}

#[test]
fn count_primes_hundred_million() {
    assert_eq!(count(100_000_000), 5_761_455);
}

#[test]
fn count_primes_one_billion() {
    assert_eq!(count(1_000_000_000), 50_847_534);
}

#[test]
fn nth_prime_ten_million() {
    assert_eq!(nth_prime(10_000_000), Some(179_424_673));
}

#[test]
fn count_primes_is_deterministic() {
    let counter = LegendrePrimeCounter::new(2_000_000);
    assert_eq!(counter.count_primes(1_234_567), counter.count_primes(1_234_567));
}

#[test]
fn counter_factor_base_is_ascending_primes() {
    let counter = LegendrePrimeCounter::new(10_000);
    assert_eq!(counter.prime_factors(), &vec![2usize, 3, 5, 7, 11, 13, 17, 19, 23, 29, 31, 37,
        41, 43, 47, 53, 59, 61, 67, 71, 73, 79, 83, 89, 97]);
}

#[test]
fn nth_prime_small_reference_values() {
    assert_eq!(nth_prime(1), Some(2));
    assert_eq!(nth_prime(2), Some(3));
    assert_eq!(nth_prime(3), Some(5));
    assert_eq!(nth_prime(4), Some(7));
    assert_eq!(nth_prime(5), Some(11));
    assert_eq!(nth_prime(6), Some(13));
    assert_eq!(nth_prime(10), Some(29));
    assert_eq!(nth_prime(100), Some(541));
    assert_eq!(nth_prime(1_000), Some(7_919));
}

#[test]
fn nth_prime_ten_thousand() {
    assert_eq!(nth_prime(10_000), Some(104_729));
}

#[test]
fn nth_prime_hundred_thousand() {
    assert_eq!(nth_prime(100_000), Some(1_299_709));
}

#[test]
fn nth_prime_one_million() {
    assert_eq!(nth_prime(1_000_000), Some(15_485_863));
}

#[test]
fn nth_prime_is_deterministic() {
    assert_eq!(nth_prime(54_321), nth_prime(54_321));
}

#[test]
fn estimator_equals_the_prime_itself_below_six() {
    for (n, p) in [(1usize, 2usize), (2, 3), (3, 5), (4, 7), (5, 11)] {
        assert_eq!(lower_bound_for_nth_prime(n), p);
        assert_eq!(upper_bound_for_nth_prime(n), p);
    }
}

#[test]
fn estimates_bracket_known_primes() {
    for (n, p) in [
        (1usize, 2usize),
        (10, 29),
        (100, 541),
        (1_000, 7_919),
        (10_000, 104_729),
        (100_000, 1_299_709),
        (1_000_000, 15_485_863),
        (10_000_000, 179_424_673),
    ] {
        assert!(lower_bound_for_nth_prime(n) <= p);
        assert!(upper_bound_for_nth_prime(n) >= p);
    }
}

#[test]
fn estimator_is_deterministic() {
    assert_eq!(upper_bound_for_nth_prime(98_765), upper_bound_for_nth_prime(98_765));
    assert_eq!(lower_bound_for_nth_prime(98_765), lower_bound_for_nth_prime(98_765));
}
