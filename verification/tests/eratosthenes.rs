//! The bounded engines against known prefixes of the primes, the
//! defined boundary behavior at bounds below 2, and an independent
//! oracle.

use primes::eratosthenes::{bit_vector, og, skip_2};

#[test]
fn og_primes_10() {
    let expected = [2, 3, 5, 7];

    assert_eq!(og::primes(10), expected);
}

#[test]
fn og_primes_15() {
    let expected = [2, 3, 5, 7, 11, 13];

    assert_eq!(og::primes(15), expected);
}

#[test]
fn og_primes_19() {
    let expected = [2, 3, 5, 7, 11, 13, 17, 19];

    assert_eq!(og::primes(19), expected);
}

#[test]
fn og_primes_50() {
    let expected = [2, 3, 5, 7, 11, 13, 17, 19, 23, 29, 31, 37, 41, 43, 47];

    assert_eq!(og::primes(50), expected);
}

#[test]
fn skip_2_primes_10() {
    let expected = [2, 3, 5, 7];

    assert_eq!(skip_2::primes(10), expected);
}

#[test]
fn skip_2_primes_15() {
    let expected = [2, 3, 5, 7, 11, 13];

    assert_eq!(skip_2::primes(15), expected);
}

#[test]
fn skip_2_primes_19() {
    let expected = [2, 3, 5, 7, 11, 13, 17, 19];

    assert_eq!(skip_2::primes(19), expected);
}

#[test]
fn skip_2_primes_50() {
    let expected = [2, 3, 5, 7, 11, 13, 17, 19, 23, 29, 31, 37, 41, 43, 47];

    assert_eq!(skip_2::primes(50), expected);
}

#[test]
fn bit_vector_primes_10() {
    let expected = [2, 3, 5, 7];

    assert_eq!(bit_vector::primes(10), expected);
}

#[test]
fn bit_vector_primes_15() {
    let expected = [2, 3, 5, 7, 11, 13];

    assert_eq!(bit_vector::primes(15), expected);
}

#[test]
fn bit_vector_primes_19() {
    let expected = [2, 3, 5, 7, 11, 13, 17, 19];

    assert_eq!(bit_vector::primes(19), expected);
}

#[test]
fn bit_vector_primes_50() {
    let expected = [2, 3, 5, 7, 11, 13, 17, 19, 23, 29, 31, 37, 41, 43, 47];

    assert_eq!(bit_vector::primes(50), expected);
}

/// Compare with primal's output
#[test]
fn primal() {
    let expected: Vec<u64> = primal::Sieve::new(1000000)
        .primes_from(2)
        .map(|p| p.try_into().unwrap())
        .collect();

    assert_eq!(bit_vector::primes(1000000), expected);
}

#[test]
fn bounds_below_two_are_empty() {
    assert_eq!(og::primes(0), Vec::<u64>::new());
    assert_eq!(og::primes(1), Vec::<u64>::new());
    assert_eq!(skip_2::primes(0), Vec::<u64>::new());
    assert_eq!(skip_2::primes(1), Vec::<u64>::new());
    assert_eq!(bit_vector::primes(0), Vec::<u64>::new());
    assert_eq!(bit_vector::primes(1), Vec::<u64>::new());
}

#[test]
fn bound_two_is_exactly_two() {
    assert_eq!(og::primes(2), vec![2]);
    assert_eq!(skip_2::primes(2), vec![2]);
    assert_eq!(bit_vector::primes(2), vec![2]);
}

#[test]
fn engines_agree_on_odd_and_even_bounds() {
    for limit in [3, 4, 97, 98, 99, 100, 1009, 1010] {
        let a = og::primes(limit);
        let b = skip_2::primes(limit);
        let c = bit_vector::primes(limit);
        assert_eq!(a, b);
        assert_eq!(a, c);
    }
}
