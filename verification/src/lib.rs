//! Prime-number generators: bounded batch sieves, a trial-division
//! producer, and live incremental sieves that emit primes one at a
//! time with no upper bound.
//!
//! Every generator's contract is stated against one model,
//! [`primality::primes_below`]: the bounded engines return
//! `primes_below(bound + 1)`, and each producer's emissions so far are
//! `primes_below(c)` for its cursor `c`. The lemmas in [`primality`]
//! turn that shared shape into the cross-generator agreement laws.

use vstd::prelude::*;

pub mod eratosthenes;
pub mod live;
pub mod primality;

use crate::primality::{
    ints_of32, is_prime, lemma_ints_of32_push, lemma_no_primes_between, lemma_primes_below_elems,
    lemma_small_prime_factor, primes_below,
};

verus! {

/// The last candidate the trial-division producer will test: past it,
/// advancing the cursor would overflow its 32-bit domain, so the
/// producer signals exhaustion instead of wrapping around.
pub const MAX_CANDIDATE: u32 = u32::MAX - 1;

/// The seed primes a fresh producer starts from.
spec fn seed() -> Seq<int> {
    seq![2, 3, 5, 7]
}

/// A lazy producer of primes by trial division: each candidate is
/// divided by the retained primes up to its square root, and every
/// prime found is retained for testing later candidates.
pub struct Primes {
    curr: u32,
    generated_primes: Vec<u32>,
}

impl Primes {
    /// The next candidate to test. Every prime below the cursor has
    /// been emitted, and nothing at or above it has.
    pub closed spec fn cursor(self) -> int {
        self.curr as int
    }

    /// The primes emitted so far, in increasing order.
    pub open spec fn emitted(self) -> Seq<int> {
        primes_below(self.cursor())
    }

    /// The retained list is the four seed primes followed by every
    /// prime below the cursor.
    pub closed spec fn wf(self) -> bool {
        &&& 2 <= self.cursor()
        &&& ints_of32(self.generated_primes@) == seed() + primes_below(self.cursor())
    }

    /// A fresh producer: cursor at 2, nothing emitted yet.
    pub fn new() -> (r: Primes)
        ensures
            r.wf(),
            r.cursor() == 2,
            r.emitted() == Seq::<int>::empty(),
    {
        let mut generated_primes: Vec<u32> = Vec::with_capacity(1024);
        generated_primes.push(2);
        generated_primes.push(3);
        generated_primes.push(5);
        generated_primes.push(7);
        let r = Primes { curr: 2, generated_primes };
        proof {
            assert(primes_below(2) =~= Seq::<int>::empty());
            assert(ints_of32(r.generated_primes@) =~= seed() + primes_below(2));
        }
        r
    }

    /// Whether the current candidate has no retained prime divisor up
    /// to its square root — which, given the retained list, is exactly
    /// its primality.
    fn check(&self) -> (r: bool)
        requires
            self.wf(),
        ensures
            r == is_prime(self.curr as int),
    {
        let ghost c: int = self.curr as int;
        let ghost gen: Seq<int> = ints_of32(self.generated_primes@);
        proof {
            lemma_primes_below_elems(c);
        }
        let n: usize = self.generated_primes.len();
        let mut i: usize = 0;
        while i < n
            invariant
                self.wf(),
                c == self.curr as int,
                gen == ints_of32(self.generated_primes@),
                n == self.generated_primes@.len(),
                0 <= i <= n,
                forall|j: int|
                    0 <= j < i ==> #[trigger] gen[j] * gen[j] <= c && c % gen[j] != 0,
            decreases n - i,
        {
            let val: u32 = self.generated_primes[i];
            proof {
                lemma_primes_below_elems(c);
                assert(seed().len() == 4);
                assert(gen.len() == 4 + primes_below(c).len());
                assert(gen[i as int] == val as int);
                if i >= 4 {
                    assert(gen[i as int] == (seed() + primes_below(c))[i as int]);
                    assert((seed() + primes_below(c))[i as int] == primes_below(c)[i as int - 4]);
                } else {
                    assert(gen[i as int] == (seed() + primes_below(c))[i as int]);
                    assert((seed() + primes_below(c))[i as int] == seed()[i as int]);
                    if i == 0 {
                        assert(seed()[0] == 2);
                    } else if i == 1 {
                        assert(seed()[1] == 3);
                    } else if i == 2 {
                        assert(seed()[2] == 5);
                    } else {
                        assert(seed()[3] == 7);
                    }
                }
                assert(val as int >= 2);
                assert((val as u64) * (val as u64) <= 0xFFFF_FFFE_0000_0001u64) by (nonlinear_arith)
                    requires
                        val as u64 <= 0xFFFF_FFFFu64,
                ;
            }
            if (val as u64) * (val as u64) > (self.curr as u64) {
                proof {
                    self.lemma_scan_complete(i as int);
                }
                return true;
            }
            if self.curr % val == 0 {
                proof {
                    assert(val as int >= 2);
                    assert((val as int) < c) by (nonlinear_arith)
                        requires
                            (val as int) * (val as int) <= c,
                            val as int >= 2,
                            c >= 2,
                    ;
                    assert(c % (val as int) == 0);
                }
                return false;
            }
            i = i + 1;
        }
        proof {
            self.lemma_scan_complete(n as int);
        }
        true
    }

    /// If the scan reached index `stop` without finding a divisor, and
    /// either fell off the list or hit a retained prime whose square
    /// exceeds the candidate, the candidate is prime.
    proof fn lemma_scan_complete(self, stop: int)
        requires
            self.wf(),
            0 <= stop <= ints_of32(self.generated_primes@).len(),
            forall|j: int|
                0 <= j < stop ==> #[trigger] ints_of32(self.generated_primes@)[j] * ints_of32(
                    self.generated_primes@,
                )[j] <= self.curr as int && (self.curr as int) % ints_of32(
                    self.generated_primes@,
                )[j] != 0,
            stop < ints_of32(self.generated_primes@).len() ==> ints_of32(
                self.generated_primes@,
            )[stop] * ints_of32(self.generated_primes@)[stop] > self.curr as int,
        ensures
            is_prime(self.curr as int),
    {
        let c: int = self.curr as int;
        let gen: Seq<int> = ints_of32(self.generated_primes@);
        let pb: Seq<int> = primes_below(c);
        lemma_primes_below_elems(c);
        if !is_prime(c) {
            lemma_small_prime_factor(c);
            let p: int = choose|p: int|
                is_prime(p) && 2 <= p < c && #[trigger] (c % p) == 0 && p * p <= c;
            let ip: int = if p == 2 {
                0
            } else if p == 3 {
                1
            } else if p == 5 {
                2
            } else if p == 7 {
                3
            } else {
                crate::primality::lemma_primes_below_contains(c, p);
                let iq: int = choose|iq: int| 0 <= iq < pb.len() && #[trigger] pb[iq] == p;
                4 + iq
            };
            assert(gen[ip] == p);
            assert(p != 4 && p != 6 && p != 8 && p != 9 && p != 10) by {
                assert(4int % 2 == 0 && 6int % 2 == 0 && 8int % 2 == 0 && 9int % 3 == 0 && 10int
                    % 2 == 0);
            }
            if ip >= stop {
                assert(stop < gen.len());
                let s: int = gen[stop];
                assert(s <= p) by {
                    if stop < 4 {
                        assert(seed()[stop] <= 7);
                        if p <= 7 {
                            assert(ip <= 3 && gen[stop] <= gen[ip]);
                        } else {
                            assert(p >= 11);
                        }
                    } else {
                        assert(gen[stop] == pb[stop - 4]);
                        assert(ip >= 4 && pb[ip - 4] == p);
                        if stop - 4 < ip - 4 {
                            assert(pb[stop - 4] < pb[ip - 4]);
                        }
                    }
                }
                assert(s * s <= p * p) by (nonlinear_arith)
                    requires
                        0 <= s <= p,
                ;
                assert(s * s > c);
                assert(false);
            }
            assert(c % gen[ip] != 0);
            assert(false);
        }
    }

    /// Advances to and returns the next prime, or `None` once the next
    /// candidate would leave the 32-bit domain. The returned prime is
    /// exactly the one whose predecessors are the primes already
    /// emitted; the cursor moves just past it.
    pub fn next(&mut self) -> (r: Option<u32>)
        requires
            old(self).wf(),
        ensures
            final(self).wf(),
            match r {
                Some(p) => {
                    &&& is_prime(p as int)
                    &&& old(self).cursor() <= p as int && p as int <= MAX_CANDIDATE
                    &&& primes_below(p as int) == old(self).emitted()
                    &&& final(self).cursor() == p as int + 1
                    &&& final(self).emitted() == old(self).emitted().push(p as int)
                },
                None => {
                    &&& final(self).emitted() == old(self).emitted()
                    &&& final(self).cursor() > MAX_CANDIDATE as int
                },
            },
            (r is Some) <==> exists|q: int|
                old(self).cursor() <= q <= MAX_CANDIDATE && is_prime(q),
    {
        loop
            invariant
                self.wf(),
                old(self).wf(),
                old(self).cursor() <= self.cursor() <= MAX_CANDIDATE as int + 1,
                primes_below(self.cursor()) == primes_below(old(self).cursor()),
            decreases MAX_CANDIDATE as int + 1 - self.cursor(),
        {
            if self.curr > MAX_CANDIDATE {
                proof {
                    lemma_no_primes_between(old(self).cursor(), self.cursor());
                }
                return None;
            }
            let prime_here: bool = self.check();
            if prime_here {
                let p: u32 = self.curr;
                proof {
                    lemma_ints_of32_push(self.generated_primes@, p);
                    assert(primes_below(p as int + 1) == primes_below(p as int).push(p as int));
                    assert((seed() + primes_below(p as int)).push(p as int) =~= (seed()
                        + primes_below(p as int).push(p as int)));
                }
                self.generated_primes.push(p);
                self.curr = self.curr + 1;
                return Some(p);
            }
            proof {
                assert(primes_below(self.cursor() + 1) == primes_below(self.cursor()));
            }
            self.curr = self.curr + 1;
        }
    }
}

} // verus!
