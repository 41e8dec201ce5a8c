//! Bounded batch sieves: each takes an inclusive upper bound and
//! returns the complete ordered list of primes up to it in one call.

pub mod og;
pub mod skip_2;
pub mod bit_vector;
