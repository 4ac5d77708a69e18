use prime_sieve::{block_sieve, count_items_in_range, sieve_eratosthenes, sieve_segment};

#[test]
fn sieve_of_zero_is_empty() {
    assert_eq!(sieve_eratosthenes(0), Vec::<usize>::new());
}

#[test]
fn sieve_of_one_is_empty() {
    assert_eq!(sieve_eratosthenes(1), Vec::<usize>::new());
}

#[test]
fn sieve_of_two_is_just_two() {
    assert_eq!(sieve_eratosthenes(2), vec![2]);
}

#[test]
fn sieve_of_thirty() {
    assert_eq!(sieve_eratosthenes(30), vec![2, 3, 5, 7, 11, 13, 17, 19, 23, 29]);
}

#[test]
fn sieve_of_hundred_has_twenty_five_primes() {
    let primes = sieve_eratosthenes(100);
    assert_eq!(primes.len(), 25);
    assert_eq!(primes[0], 2);
    assert_eq!(primes[24], 97);
}

#[test]
fn block_sieve_of_zero_is_empty() {
    assert_eq!(block_sieve(0), Vec::<usize>::new());
}

#[test]
fn block_sieve_of_two_is_just_two() {
    assert_eq!(block_sieve(2), vec![2]);
}

#[test]
fn block_sieve_matches_plain_sieve_small() {
    for bound in [0usize, 1, 2, 3, 10, 97, 1000, 7919] {
        assert_eq!(sieve_eratosthenes(bound), block_sieve(bound));
    }
}

#[test]
fn block_sieve_matches_plain_sieve_across_the_block_threshold() {
    // 300_000 exceeds the small-sieve cutoff, so the block sieve really
    // recurses and segments here.
    assert_eq!(sieve_eratosthenes(300_000), block_sieve(300_000));
}

#[test]
fn block_sieve_matches_plain_sieve_at_a_million() {
    assert_eq!(sieve_eratosthenes(1_000_000), block_sieve(1_000_000));
}

#[test]
fn segment_decomposition_is_exact_at_hundred() {
    // sieve(100) == sieve(10) ++ sieve_segment(sieve(10), 11, 100); the
    // split point 10 is the square root of the bound.
    let head = sieve_eratosthenes(10);
    let tail = sieve_segment(&head, 11, 100);
    let mut joined = head.clone();
    joined.extend_from_slice(&tail);
    assert_eq!(joined, sieve_eratosthenes(100));
}

#[test]
fn segment_decomposition_is_exact_at_ten_thousand() {
    let head = sieve_eratosthenes(100);
    let tail = sieve_segment(&head, 101, 10_000);
    let mut joined = head.clone();
    joined.extend_from_slice(&tail);
    assert_eq!(joined, sieve_eratosthenes(10_000));
}

#[test]
fn segment_sieve_of_a_narrow_window() {
    let base = sieve_eratosthenes(32);
    // Primes in [990, 1010]: 991, 997, 1009.
    assert_eq!(sieve_segment(&base, 990, 1010), vec![991, 997, 1009]);
}

#[test]
fn segment_sieve_of_an_empty_window() {
    let base = sieve_eratosthenes(32);
    assert_eq!(sieve_segment(&base, 200, 210), Vec::<usize>::new());
}

#[test]
fn sieving_twice_gives_identical_results() {
    assert_eq!(sieve_eratosthenes(5000), sieve_eratosthenes(5000));
    assert_eq!(block_sieve(250_000), block_sieve(250_000));
}

#[test]
fn segment_sieve_clamps_low_windows_to_odd_primes() {
    // Values below 3 carry no odd primes; 2 is reported by the callers.
    let base = sieve_eratosthenes(5);
    assert_eq!(sieve_segment(&base, 0, 20), vec![3, 5, 7, 11, 13, 17, 19]);
}

#[test]
fn counting_items_in_a_range() {
    let primes = sieve_eratosthenes(50);
    assert_eq!(count_items_in_range(&primes, 10, 20), 4);
    assert_eq!(count_items_in_range(&primes, 0, 50), 15);
    assert_eq!(count_items_in_range(&primes, 24, 28), 0);
}
