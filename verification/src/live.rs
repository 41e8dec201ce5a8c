//! Live incremental sieves: producers that discover primes one at a
//! time, with no upper bound, by keeping a deferred schedule of future
//! composite values and the primes that will divide them.

pub mod first;
pub mod second;
