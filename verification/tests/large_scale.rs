//! A large cross-check: the live incremental sieve against a bounded
//! engine run to ten million.

#[test]
fn live_sieve_matches_bounded_run() {
    let bounded = primes::eratosthenes::bit_vector::primes(9_999_991);
    let largest = *bounded.last().unwrap();
    let count = bounded.len();
    assert_eq!(count, 664_579);

    let mut producer = primes::live::second::Primes::new();
    let mut nth: u64 = 0;
    for _ in 0..count {
        nth = producer.next().unwrap();
    }
    assert_eq!(nth, largest);
}
