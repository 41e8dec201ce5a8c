//! The lazy producers against known prefixes of the primes: trial
//! division and both live incremental sieves.

fn take_trial(k: usize) -> Vec<u32> {
    let mut producer = primes::Primes::new();
    let mut out: Vec<u32> = Vec::new();
    for _ in 0..k {
        out.push(producer.next().unwrap());
    }
    out
}

fn take_first(k: usize) -> Vec<u64> {
    let mut producer = primes::live::first::Primes::new();
    let mut out: Vec<u64> = Vec::new();
    for _ in 0..k {
        out.push(producer.next().unwrap());
    }
    out
}

fn take_second(k: usize) -> Vec<u64> {
    let mut producer = primes::live::second::Primes::new();
    let mut out: Vec<u64> = Vec::new();
    for _ in 0..k {
        out.push(producer.next().unwrap());
    }
    out
}

#[test]
fn it_works() {
    let primes: Vec<u32> = take_trial(16);
    assert_eq!(
        &primes[..],
        &[2, 3, 5, 7, 11, 13, 17, 19, 23, 29, 31, 37, 41, 43, 47, 53]
    );
}

#[test]
fn first_primes_10() {
    let expected = [2, 3, 5, 7];

    assert_eq!(take_first(4), expected);
}

#[test]
fn first_primes_15() {
    let expected = [2, 3, 5, 7, 11, 13];

    assert_eq!(take_first(6), expected);
}

#[test]
fn first_primes_19() {
    let expected = [2, 3, 5, 7, 11, 13, 17, 19];

    assert_eq!(take_first(8), expected);
}

#[test]
fn first_primes_50() {
    let expected = [2, 3, 5, 7, 11, 13, 17, 19, 23, 29, 31, 37, 41, 43, 47];

    assert_eq!(take_first(15), expected);
}

#[test]
fn second_primes_10() {
    let expected = [2, 3, 5, 7];

    assert_eq!(take_second(4), expected);
}

#[test]
fn second_primes_15() {
    let expected = [2, 3, 5, 7, 11, 13];

    assert_eq!(take_second(6), expected);
}

#[test]
fn second_primes_19() {
    let expected = [2, 3, 5, 7, 11, 13, 17, 19];

    assert_eq!(take_second(8), expected);
}

#[test]
fn second_primes_50() {
    let expected = [2, 3, 5, 7, 11, 13, 17, 19, 23, 29, 31, 37, 41, 43, 47];

    assert_eq!(take_second(15), expected);
}

#[test]
fn first_fifteen_from_every_producer() {
    let expected: Vec<u64> = vec![2, 3, 5, 7, 11, 13, 17, 19, 23, 29, 31, 37, 41, 43, 47];
    let trial: Vec<u64> = take_trial(15).into_iter().map(u64::from).collect();
    assert_eq!(trial, expected);
    assert_eq!(take_first(15), expected);
    assert_eq!(take_second(15), expected);
}

#[test]
fn producers_and_engines_agree_on_prefixes() {
    let bound = primes::eratosthenes::og::primes(1000);
    let k = bound.len();
    let trial: Vec<u64> = take_trial(k).into_iter().map(u64::from).collect();
    assert_eq!(trial, bound);
    assert_eq!(take_first(k), bound);
    assert_eq!(take_second(k), bound);
}

#[test]
fn independent_instances_yield_identical_sequences() {
    assert_eq!(take_first(200), take_first(200));
    assert_eq!(take_second(200), take_second(200));
    assert_eq!(take_trial(200), take_trial(200));
}

#[test]
fn pooled_and_unpooled_sieves_match() {
    // The second sieve recycles its marking lists through the
    // warehouse; the first allocates fresh ones. Their output must be
    // identical for any prefix.
    assert_eq!(take_first(2000), take_second(2000));
}
