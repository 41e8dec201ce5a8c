//! The live incremental sieve, tuned: the value 2 is special-cased so
//! that only odd candidates and odd multiples are ever scheduled,
//! halving the number of live schedule entries, and the per-entry
//! marking lists are recycled through a warehouse of empty vectors
//! instead of being freed and reallocated. The schedule itself is an
//! `FxHashMap`, rustc_hash's faster drop-in for std's `HashMap`.

use rustc_hash::FxHashMap;

use vstd::prelude::*;

use crate::primality::{
    is_prime, lemma_composite_has_prime_factor, lemma_divides_transitive, lemma_even_not_prime,
    lemma_mod_add_multiple, lemma_multiples_apart, lemma_no_primes_between,
    lemma_primes_below_len_determines, primes_below,
};

verus! {

#[verifier::external_type_specification]
#[verifier::external_body]
pub struct ExFxBuildHasher(rustc_hash::FxBuildHasher);

/// Relies on std's `HashMap::remove` with rustc_hash's `FxBuildHasher`:
/// Fx hashing is deterministic and agrees with `u64` equality, so
/// removal takes out exactly the entry at the key and returns its
/// value.
#[verifier::external_body]
fn sched_remove(m: &mut FxHashMap<u64, Vec<u64>>, k: u64) -> (r: Option<Vec<u64>>)
    ensures
        final(m)@ == old(m)@.remove(k),
        match r {
            Some(v) => old(m)@.contains_key(k) && v == old(m)@[k],
            None => !old(m)@.contains_key(k),
        },
{
    m.remove(&k)
}

/// Relies on std's `HashMap::insert` with rustc_hash's `FxBuildHasher`:
/// Fx hashing is deterministic and agrees with `u64` equality, so
/// inserting binds exactly the key to the value.
#[verifier::external_body]
fn sched_insert(m: &mut FxHashMap<u64, Vec<u64>>, k: u64, v: Vec<u64>)
    ensures
        final(m)@ == old(m)@.insert(k, v),
{
    m.insert(k, v);
}

/// The last cursor value the producer will test: past it, computing a
/// prime's first scheduled multiple (three times the prime) could
/// overflow the 64-bit domain, so the producer signals exhaustion
/// instead of wrapping around.
pub const MAX_CURSOR: u64 = u64::MAX / 3;

/// Odd multiples of an odd number lie at least twice it apart.
proof fn lemma_odd_multiples_apart(a: int, b: int, p: int)
    requires
        0 < p,
        p % 2 == 1,
        0 <= a < b,
        a % p == 0,
        b % p == 0,
        a % 2 == 1,
        b % 2 == 1,
    ensures
        b - a >= 2 * p,
{
    lemma_multiples_apart(a, b, p);
    assert(p % p == 0) by (nonlinear_arith)
        requires
            p >= 1,
    ;
    if b - a < 2 * p {
        if p < b - a {
            lemma_multiples_apart(p, b - a, p);
        } else if b - a < p {
            lemma_multiples_apart(b - a, p, p);
        }
        assert(b - a == p);
        assert((b - a) % 2 == 0) by (nonlinear_arith)
            requires
                a % 2 == 1,
                b % 2 == 1,
                0 <= a < b,
        ;
        assert(false);
    }
}

/// Element `idx` of the schedule entry at key `k` is an odd prime
/// below `n` dividing `k`, and `k` is its least odd multiple at or
/// past `lo`.
spec fn entry_ok(m: Map<u64, Vec<u64>>, n: int, lo: int, k: u64, idx: int) -> bool {
    let p = m[k]@[idx] as int;
    &&& is_prime(p)
    &&& 3 <= p < n
    &&& p % 2 == 1
    &&& (k as int) % p == 0
    &&& (k as int) % 2 == 1
    &&& lo <= k as int
    &&& (k as int) - 2 * p < lo
}

/// Every element of every schedule entry satisfies `entry_ok`.
spec fn sched_ok(m: Map<u64, Vec<u64>>, n: int, lo: int) -> bool {
    forall|k: u64, idx: int|
        m.contains_key(k) && 0 <= idx < m[k]@.len() ==> entry_ok(m, n, lo, k, idx)
}

/// Schedule entries are nonempty and hold no duplicate primes.
spec fn lists_ok(m: Map<u64, Vec<u64>>) -> bool {
    &&& forall|k: u64| #[trigger] m.contains_key(k) ==> m[k]@.len() >= 1
    &&& forall|k: u64, i1: int, i2: int|
        m.contains_key(k) && 0 <= i1 < i2 < m[k]@.len() ==> m[k]@[i1] != m[k]@[i2]
}

/// `p` appears in some schedule entry.
spec fn scheduled(m: Map<u64, Vec<u64>>, p: u64) -> bool {
    exists|k: u64| #[trigger] m.contains_key(k) && m[k]@.contains(p)
}

/// Every odd prime below `n` is scheduled; 2 never is.
spec fn covered(m: Map<u64, Vec<u64>>, n: int) -> bool {
    forall|q: u64|
        3 <= q as int && (q as int) < n && is_prime(q as int) && q as int % 2 == 1
            ==> #[trigger] scheduled(m, q)
}

/// Every warehoused vector is empty, ready for reuse.
spec fn pool_ok(pool: Seq<Vec<u64>>) -> bool {
    forall|i: int| 0 <= i < pool.len() ==> (#[trigger] pool[i])@.len() == 0
}

/// A prime can sit at only one key: its least scheduled odd multiple.
proof fn lemma_scheduled_key_unique(
    m: Map<u64, Vec<u64>>,
    n: int,
    lo: int,
    k1: u64,
    k2: u64,
    p: u64,
)
    requires
        sched_ok(m, n, lo),
        m.contains_key(k1),
        m.contains_key(k2),
        m[k1]@.contains(p),
        m[k2]@.contains(p),
    ensures
        k1 == k2,
{
    let i1: int = choose|i: int| 0 <= i < m[k1]@.len() && #[trigger] m[k1]@[i] == p;
    let i2: int = choose|i: int| 0 <= i < m[k2]@.len() && #[trigger] m[k2]@[i] == p;
    assert(entry_ok(m, n, lo, k1, i1));
    assert(entry_ok(m, n, lo, k2, i2));
    if (k1 as int) < k2 as int {
        lemma_odd_multiples_apart(k1 as int, k2 as int, p as int);
        assert(false);
    } else if (k2 as int) < k1 as int {
        lemma_odd_multiples_apart(k2 as int, k1 as int, p as int);
        assert(false);
    }
}

/// Under the schedule invariant, a composite odd cursor value is
/// always a key of the schedule.
proof fn lemma_composite_is_scheduled(m: Map<u64, Vec<u64>>, n: u64)
    requires
        sched_ok(m, n as int, n as int),
        covered(m, n as int),
        3 <= n,
        n as int % 2 == 1,
        !is_prime(n as int),
    ensures
        m.contains_key(n),
{
    lemma_composite_has_prime_factor(n as int);
    let p: int = choose|p: int|
        is_prime(p) && 2 <= p && p < n as int && #[trigger] ((n as int) % p) == 0;
    if p % 2 != 1 {
        assert(p == 2);
        lemma_divides_transitive(2, p, n as int);
        assert(false);
    }
    assert(p >= 3);
    assert(scheduled(m, p as u64));
    let k: u64 = choose|k: u64| #[trigger] m.contains_key(k) && m[k]@.contains(p as u64);
    let i: int = choose|i: int| 0 <= i < m[k]@.len() && #[trigger] m[k]@[i] == p as u64;
    assert(entry_ok(m, n as int, n as int, k, i));
    if (n as int) < k as int {
        lemma_odd_multiples_apart(n as int, k as int, p);
        assert(false);
    }
    assert(k == n);
}

/// Reuse-pool transparency: the pooled sieve and the variant that
/// always allocates fresh lists emit identical sequences — after the
/// same number of emissions, their histories are equal, whatever their
/// schedules or warehouses hold. Recycling changes performance, never
/// output.
pub proof fn lemma_reuse_pool_transparent(a: Primes, b: crate::live::first::Primes)
    requires
        a.wf(),
        b.wf(),
        a.emitted().len() == b.emitted().len(),
    ensures
        a.emitted() == b.emitted(),
{
    lemma_primes_below_len_determines(a.cursor(), b.cursor());
}

/// A lazy, unbounded producer of primes in increasing order: the
/// even-skipping deferred-schedule sieve with a vector reuse pool.
pub struct Primes {
    iterators: FxHashMap<u64, Vec<u64>>,
    next: u64,
    // This allows us to avoid freeing vecs only to allocate new ones
    // later. It's the warehouse pattern.
    used_vecs: Vec<Vec<u64>>,
}

impl Primes {
    /// The next candidate to test. Every prime below the cursor has
    /// been emitted, and nothing at or above it has.
    pub closed spec fn cursor(self) -> int {
        self.next as int
    }

    /// The primes emitted so far, in increasing order.
    pub open spec fn emitted(self) -> Seq<int> {
        primes_below(self.cursor())
    }

    /// The schedule invariant. Before 2 is emitted the schedule is
    /// empty; afterwards the cursor is odd, every scheduled odd prime
    /// divides its key and sits at its least odd multiple at or past
    /// the cursor, every emitted odd prime is scheduled exactly once,
    /// and every warehoused vector is empty.
    pub closed spec fn wf(self) -> bool {
        &&& pool_ok(self.used_vecs@)
        &&& lists_ok(self.iterators@)
        &&& if self.cursor() == 2 {
            self.iterators@ === Map::<u64, Vec<u64>>::empty()
        } else {
            &&& 3 <= self.cursor() <= MAX_CURSOR as int + 2
            &&& self.cursor() % 2 == 1
            &&& sched_ok(self.iterators@, self.cursor(), self.cursor())
            &&& covered(self.iterators@, self.cursor())
        }
    }

    /// A fresh producer: cursor at 2, empty schedule and warehouse.
    pub fn new() -> (r: Primes)
        ensures
            r.wf(),
            r.cursor() == 2,
            r.emitted() == Seq::<int>::empty(),
    {
        let r = Primes { iterators: FxHashMap::default(), next: 2, used_vecs: Vec::new() };
        proof {
            assert(primes_below(2) =~= Seq::<int>::empty());
        }
        r
    }

    /// Takes an empty list from the warehouse, or makes a fresh one.
    fn acquire_list(&mut self) -> (r: Vec<u64>)
        requires
            pool_ok(old(self).used_vecs@),
        ensures
            r@ == Seq::<u64>::empty(),
            pool_ok(final(self).used_vecs@),
            old(self).used_vecs@.len() > 0 ==> final(self).used_vecs@.len() == old(
                self,
            ).used_vecs@.len() - 1,
            old(self).used_vecs@.len() == 0 ==> final(self).used_vecs@ == old(self).used_vecs@,
            final(self).iterators == old(self).iterators,
            final(self).next == old(self).next,
    {
        match self.used_vecs.pop() {
            Some(v) => {
                proof {
                    assert(old(self).used_vecs@[old(self).used_vecs@.len() - 1] == v);
                    assert(v@ =~= Seq::<u64>::empty());
                }
                v
            },
            None => Vec::new(),
        }
    }

    /// Clears a spent list and returns it to the warehouse.
    fn release_list(&mut self, mut list: Vec<u64>)
        requires
            pool_ok(old(self).used_vecs@),
        ensures
            pool_ok(final(self).used_vecs@),
            final(self).used_vecs@.len() == old(self).used_vecs@.len() + 1,
            final(self).iterators == old(self).iterators,
            final(self).next == old(self).next,
    {
        list.clear();
        self.used_vecs.push(list);
        proof {
            assert forall|i: int| 0 <= i < self.used_vecs@.len() implies (
            #[trigger] self.used_vecs@[i])@.len() == 0 by {
                if i < self.used_vecs@.len() - 1 {
                    assert(self.used_vecs@[i] == old(self).used_vecs@[i]);
                }
            }
        }
    }

    /// Advances to and returns the next prime, or `None` once the
    /// cursor would leave the safe 64-bit range. The returned prime is
    /// exactly the one whose predecessors are the primes already
    /// emitted; the cursor moves just past it, skipping even values.
    pub fn next(&mut self) -> (r: Option<u64>)
        requires
            old(self).wf(),
        ensures
            final(self).wf(),
            match r {
                Some(p) => {
                    &&& is_prime(p as int)
                    &&& old(self).cursor() <= p as int && p <= MAX_CURSOR
                    &&& primes_below(p as int) == old(self).emitted()
                    &&& final(self).emitted() == old(self).emitted().push(p as int)
                    &&& final(self).cursor() == (if p == 2 { 3int } else { p as int + 2 })
                },
                None => {
                    &&& final(self).emitted() == old(self).emitted()
                    &&& final(self).cursor() > MAX_CURSOR as int
                },
            },
            (r is Some) <==> exists|q: int|
                old(self).cursor() <= q <= MAX_CURSOR && is_prime(q),
    {
        // We special case 2, so that the schedule only ever holds odd
        // values: after this, the cursor advances by 2 and each
        // prime's marks advance by twice the prime.
        if self.next == 2 {
            self.next = 3;
            proof {
                assert(primes_below(2) =~= Seq::<int>::empty());
                assert(primes_below(3) == primes_below(2).push(2));
            }
            return Some(2);
        }
        loop
            invariant
                self.wf(),
                old(self).wf(),
                3 <= self.cursor(),
                old(self).cursor() <= self.cursor() <= MAX_CURSOR as int + 2,
                primes_below(self.cursor()) == primes_below(old(self).cursor()),
            decreases MAX_CURSOR as int + 2 - self.cursor(),
        {
            if self.next > MAX_CURSOR {
                proof {
                    lemma_no_primes_between(old(self).cursor(), self.cursor());
                }
                return None;
            }
            let ghost nn: u64 = self.next;
            let ghost m0: Map<u64, Vec<u64>> = self.iterators@;
            let lst_opt = sched_remove(&mut self.iterators, self.next);
            match lst_opt {
                Some(lst) => {
                    proof {
                        assert(self.iterators@ == m0.remove(nn));
                        assert(m0.contains_key(nn) && m0[nn] == lst);
                        assert(entry_ok(m0, nn as int, nn as int, nn, 0));
                        assert(!is_prime(nn as int));
                        self.redistribute_entry_invariants(m0, nn, lst@, 0);
                    }
                    let mut idx: usize = 0;
                    while idx < lst.len()
                        invariant
                            self.next == nn,
                            3 <= nn <= MAX_CURSOR,
                            nn as int % 2 == 1,
                            0 <= idx <= lst@.len(),
                            sched_ok(self.iterators@, nn as int, nn as int + 1),
                            lists_ok(self.iterators@),
                            pool_ok(self.used_vecs@),
                            forall|t: int|
                                0 <= t < lst@.len() ==> {
                                    let p = #[trigger] lst@[t] as int;
                                    &&& is_prime(p)
                                    &&& 3 <= p < nn as int
                                    &&& p % 2 == 1
                                    &&& (nn as int) % p == 0
                                },
                            forall|t1: int, t2: int|
                                0 <= t1 < t2 < lst@.len() ==> lst@[t1] != lst@[t2],
                            forall|q: u64|
                                3 <= q as int && (q as int) < nn as int && is_prime(q as int) && q
                                    as int % 2 == 1 ==> #[trigger] scheduled(self.iterators@, q)
                                    || exists|t: int| idx <= t < lst@.len() && lst@[t] == q,
                            forall|t: int|
                                idx <= t < lst@.len() ==> !scheduled(
                                    self.iterators@,
                                    #[trigger] lst@[t],
                                ),
                        decreases lst@.len() - idx,
                    {
                        let p = lst[idx];
                        // Because we special case'd 2, the next mark of
                        // each prime is two primes further on.
                        let nv = self.next + p * 2;
                        let ghost m1: Map<u64, Vec<u64>> = self.iterators@;
                        let removed = sched_remove(&mut self.iterators, nv);
                        let ghost m2: Map<u64, Vec<u64>> = self.iterators@;
                        let mut entry = match removed {
                            Some(e) => e,
                            None => self.acquire_list(),
                        };
                        let ghost e0: Seq<u64> = entry@;
                        proof {
                            if m1.contains_key(nv) {
                                assert(m2 == m1.remove(nv));
                                assert(e0 == m1[nv]@);
                            } else {
                                assert(m2 =~= m1);
                                assert(e0 =~= Seq::<u64>::empty());
                            }
                            assert(!scheduled(m1, p));
                            if e0.contains(p) {
                                assert(m1.contains_key(nv) && m1[nv]@.contains(p));
                                assert(scheduled(m1, p));
                                assert(false);
                            }
                        }
                        entry.push(p);
                        let ghost ev: Vec<u64> = entry;
                        sched_insert(&mut self.iterators, nv, entry);
                        proof {
                            lemma_mod_add_multiple(nn as int, 2, p as int);
                            assert((nv as int) % 2 == 1) by (nonlinear_arith)
                                requires
                                    nv as int == nn as int + 2 * (p as int),
                                    nn as int % 2 == 1,
                                    p as int >= 0,
                            ;
                            self.step_invariants(m1, m2, nn, lst@, idx as int, p, nv, e0, ev);
                        }
                        idx = idx + 1;
                    }
                    self.release_list(lst);
                    proof {
                        let m: Map<u64, Vec<u64>> = self.iterators@;
                        let n2: int = nn as int + 2;
                        assert((nn as int + 1) % 2 == 0) by (nonlinear_arith)
                            requires
                                nn as int % 2 == 1,
                                nn >= 3,
                        ;
                        assert forall|k: u64, i: int|
                            m.contains_key(k) && 0 <= i < m[k]@.len() implies #[trigger] entry_ok(
                            m,
                            n2,
                            n2,
                            k,
                            i,
                        ) by {
                            assert(entry_ok(m, nn as int, nn as int + 1, k, i));
                            assert((k as int) != nn as int + 1);
                        }
                        assert forall|q: u64|
                            3 <= q as int && (q as int) < n2 && is_prime(q as int) && q as int % 2
                                == 1 implies #[trigger] scheduled(m, q) by {
                            if (q as int) < nn as int {
                            } else if q as int == nn as int {
                                assert(false);
                            } else {
                                assert(q as int == nn as int + 1);
                                assert(false);
                            }
                        }
                        lemma_even_not_prime(nn as int + 1);
                        assert(primes_below(nn as int + 1) == primes_below(nn as int));
                        assert(primes_below(nn as int + 2) == primes_below(nn as int + 1));
                    }
                    // Because we special case'd 2, we skip the even
                    // candidate entirely.
                    self.next = self.next + 2;
                }
                None => {
                    let p = self.next;
                    proof {
                        assert(self.iterators@ =~= m0);
                        if !is_prime(nn as int) {
                            lemma_composite_is_scheduled(m0, nn);
                            assert(false);
                        }
                    }
                    // Because we special case'd 2, the first mark of a
                    // fresh prime is at three times it: its double is
                    // even and never visited.
                    let tripled = p * 3;
                    let ghost m1: Map<u64, Vec<u64>> = self.iterators@;
                    let removed = sched_remove(&mut self.iterators, tripled);
                    let ghost m2: Map<u64, Vec<u64>> = self.iterators@;
                    let mut entry = match removed {
                        Some(e) => e,
                        None => self.acquire_list(),
                    };
                    let ghost e0: Seq<u64> = entry@;
                    proof {
                        if m1.contains_key(tripled) {
                            assert(m2 == m1.remove(tripled));
                            assert(e0 == m1[tripled]@);
                        } else {
                            assert(m2 =~= m1);
                            assert(e0 =~= Seq::<u64>::empty());
                        }
                        if e0.contains(p) {
                            let i: int = choose|i: int|
                                0 <= i < m1[tripled]@.len() && #[trigger] m1[tripled]@[i] == p;
                            assert(entry_ok(m1, nn as int, nn as int, tripled, i));
                            assert(false);
                        }
                    }
                    entry.push(p);
                    let ghost ev: Vec<u64> = entry;
                    sched_insert(&mut self.iterators, tripled, entry);
                    self.next = self.next + 2;
                    proof {
                        self.register_prime_invariants(m1, m2, p, e0, ev);
                        assert(primes_below(p as int + 1) == primes_below(p as int).push(
                            p as int,
                        ));
                        assert((p as int + 1) % 2 == 0) by (nonlinear_arith)
                            requires
                                p as int % 2 == 1,
                                p >= 3,
                        ;
                        lemma_even_not_prime(p as int + 1);
                        assert(primes_below(p as int + 2) == primes_below(p as int + 1));
                    }
                    return Some(p);
                }
            }
        }
    }

    /// Entering the redistribution loop: removing the entry at the
    /// cursor leaves a schedule whose keys are past the cursor, with
    /// the removed primes pending.
    proof fn redistribute_entry_invariants(
        self,
        m0: Map<u64, Vec<u64>>,
        nn: u64,
        lst: Seq<u64>,
        idx: int,
    )
        requires
            sched_ok(m0, nn as int, nn as int),
            lists_ok(m0),
            covered(m0, nn as int),
            m0.contains_key(nn),
            m0[nn]@ == lst,
            self.iterators@ == m0.remove(nn),
            idx == 0,
        ensures
            sched_ok(self.iterators@, nn as int, nn as int + 1),
            lists_ok(self.iterators@),
            forall|t: int|
                0 <= t < lst.len() ==> {
                    let p = #[trigger] lst[t] as int;
                    &&& is_prime(p)
                    &&& 3 <= p < nn as int
                    &&& p % 2 == 1
                    &&& (nn as int) % p == 0
                },
            forall|t1: int, t2: int| 0 <= t1 < t2 < lst.len() ==> lst[t1] != lst[t2],
            forall|q: u64|
                3 <= q as int && (q as int) < nn as int && is_prime(q as int) && q as int % 2 == 1
                    ==> #[trigger] scheduled(self.iterators@, q) || exists|t: int|
                    idx <= t < lst.len() && lst[t] == q,
            forall|t: int|
                idx <= t < lst.len() ==> !scheduled(self.iterators@, #[trigger] lst[t]),
    {
        let m = self.iterators@;
        let lo1: int = nn as int + 1;
        assert forall|k: u64, i: int|
            m.contains_key(k) && 0 <= i < m[k]@.len() implies #[trigger] entry_ok(
            m,
            nn as int,
            lo1,
            k,
            i,
        ) by {
            assert(entry_ok(m0, nn as int, nn as int, k, i));
            assert(k != nn);
        }
        assert forall|t: int| 0 <= t < lst.len() implies {
            let p = #[trigger] lst[t] as int;
            &&& is_prime(p)
            &&& 3 <= p < nn as int
            &&& p % 2 == 1
            &&& (nn as int) % p == 0
        } by {
            assert(entry_ok(m0, nn as int, nn as int, nn, t));
        }
        assert forall|q: u64|
            3 <= q as int && (q as int) < nn as int && is_prime(q as int) && q as int % 2 == 1
            implies #[trigger] scheduled(m, q) || exists|t: int|
            idx <= t < lst.len() && lst[t] == q by {
            assert(scheduled(m0, q));
            let k: u64 = choose|k: u64| #[trigger] m0.contains_key(k) && m0[k]@.contains(q);
            if k == nn {
                let t: int = choose|t: int| 0 <= t < lst.len() && #[trigger] lst[t] == q;
                assert(idx <= t < lst.len() && lst[t] == q);
            } else {
                assert(m.contains_key(k) && m[k]@.contains(q));
            }
        }
        assert forall|t: int| idx <= t < lst.len() implies !scheduled(m, #[trigger] lst[t]) by {
            if scheduled(m, lst[t]) {
                let k: u64 = choose|k: u64| #[trigger] m.contains_key(k) && m[k]@.contains(lst[t]);
                assert(m0.contains_key(k) && m0[k]@.contains(lst[t]));
                assert(m0[nn]@.contains(lst[t]));
                lemma_scheduled_key_unique(m0, nn as int, nn as int, k, nn, lst[t]);
                assert(false);
            }
        }
    }

    /// One redistribution step: moving pending prime `p` to the entry
    /// at its next odd multiple `nv` preserves the loop invariants.
    proof fn step_invariants(
        self,
        m1: Map<u64, Vec<u64>>,
        m2: Map<u64, Vec<u64>>,
        nn: u64,
        lst: Seq<u64>,
        idx: int,
        p: u64,
        nv: u64,
        e0: Seq<u64>,
        ev: Vec<u64>,
    )
        requires
            sched_ok(m1, nn as int, nn as int + 1),
            lists_ok(m1),
            0 <= idx < lst.len(),
            lst[idx] == p,
            nn as int % 2 == 1,
            forall|t: int|
                0 <= t < lst.len() ==> {
                    let q = #[trigger] lst[t] as int;
                    &&& is_prime(q)
                    &&& 3 <= q < nn as int
                    &&& q % 2 == 1
                    &&& (nn as int) % q == 0
                },
            forall|t1: int, t2: int| 0 <= t1 < t2 < lst.len() ==> lst[t1] != lst[t2],
            forall|q: u64|
                3 <= q as int && (q as int) < nn as int && is_prime(q as int) && q as int % 2 == 1
                    ==> #[trigger] scheduled(m1, q) || exists|t: int|
                    idx <= t < lst.len() && lst[t] == q,
            forall|t: int| idx <= t < lst.len() ==> !scheduled(m1, #[trigger] lst[t]),
            m1.contains_key(nv) ==> m2 == m1.remove(nv) && e0 == m1[nv]@,
            !m1.contains_key(nv) ==> m2 == m1 && e0 == Seq::<u64>::empty(),
            nv as int == nn as int + 2 * (p as int),
            (nv as int) % (p as int) == 0,
            (nv as int) % 2 == 1,
            !e0.contains(p),
            ev@ == e0.push(p),
            self.iterators@ == m2.insert(nv, ev),
        ensures
            sched_ok(self.iterators@, nn as int, nn as int + 1),
            lists_ok(self.iterators@),
            forall|q: u64|
                3 <= q as int && (q as int) < nn as int && is_prime(q as int) && q as int % 2 == 1
                    ==> #[trigger] scheduled(self.iterators@, q) || exists|t: int|
                    idx + 1 <= t < lst.len() && lst[t] == q,
            forall|t: int|
                idx + 1 <= t < lst.len() ==> !scheduled(self.iterators@, #[trigger] lst[t]),
    {
        let m = self.iterators@;
        let evs = m[nv]@;
        assert(evs == e0.push(p));
        let lo1: int = nn as int + 1;
        assert forall|k: u64, i: int|
            m.contains_key(k) && 0 <= i < m[k]@.len() implies #[trigger] entry_ok(
            m,
            nn as int,
            lo1,
            k,
            i,
        ) by {
            if k == nv {
                if i < e0.len() {
                    assert(m[k]@[i] == e0[i]);
                    assert(m1.contains_key(nv));
                    assert(entry_ok(m1, nn as int, nn as int + 1, nv, i));
                } else {
                    assert(m[k]@[i] == p);
                }
            } else {
                assert(m1.contains_key(k) && m1[k] == m[k]);
                assert(entry_ok(m1, nn as int, nn as int + 1, k, i));
            }
        }
        assert forall|k: u64, i1: int, i2: int|
            m.contains_key(k) && 0 <= i1 < i2 < m[k]@.len() implies m[k]@[i1] != m[k]@[i2] by {
            if k == nv {
                if i2 < e0.len() {
                    assert(m1.contains_key(nv));
                    assert(m1[nv]@[i1] != m1[nv]@[i2]);
                } else {
                    assert(m[k]@[i2] == p);
                    assert(m[k]@[i1] == e0[i1]);
                    assert(!e0.contains(p));
                }
            } else {
                assert(m1.contains_key(k) && m1[k] == m[k]);
            }
        }
        assert forall|q: u64|
            3 <= q as int && (q as int) < nn as int && is_prime(q as int) && q as int % 2 == 1
            implies #[trigger] scheduled(m, q) || exists|t: int|
            idx + 1 <= t < lst.len() && lst[t] == q by {
            if scheduled(m1, q) {
                let k: u64 = choose|k: u64| #[trigger] m1.contains_key(k) && m1[k]@.contains(q);
                if k == nv {
                    let i: int = choose|i: int| 0 <= i < m1[nv]@.len() && #[trigger] m1[nv]@[i] == q;
                    assert(evs[i] == q);
                    assert(m.contains_key(nv) && m[nv]@.contains(q));
                    assert(scheduled(m, q));
                } else {
                    assert(m.contains_key(k) && m[k]@.contains(q));
                    assert(scheduled(m, q));
                }
            } else {
                let t: int = choose|t: int| idx <= t < lst.len() && #[trigger] lst[t] == q;
                if t == idx {
                    assert(evs[evs.len() - 1] == p);
                    assert(m.contains_key(nv) && m[nv]@.contains(p));
                    assert(scheduled(m, q));
                } else {
                    assert(idx + 1 <= t < lst.len() && lst[t] == q);
                }
            }
        }
        assert forall|t: int| idx + 1 <= t < lst.len() implies !scheduled(
            m,
            #[trigger] lst[t],
        ) by {
            if scheduled(m, lst[t]) {
                let k: u64 = choose|k: u64| #[trigger] m.contains_key(k) && m[k]@.contains(lst[t]);
                if k == nv {
                    let i: int = choose|i: int| 0 <= i < evs.len() && #[trigger] evs[i] == lst[t];
                    if i < e0.len() {
                        assert(m1.contains_key(nv) && m1[nv]@.contains(lst[t]));
                        assert(scheduled(m1, lst[t]));
                        assert(false);
                    } else {
                        assert(lst[t] == p && lst[idx] == p);
                        assert(false);
                    }
                } else {
                    assert(m1.contains_key(k) && m1[k]@.contains(lst[t]));
                    assert(scheduled(m1, lst[t]));
                    assert(false);
                }
            }
        }
    }

    /// Registering a fresh odd prime `p` at `3p` restores the full
    /// invariant for the cursor advanced past it.
    proof fn register_prime_invariants(
        self,
        m1: Map<u64, Vec<u64>>,
        m2: Map<u64, Vec<u64>>,
        p: u64,
        e0: Seq<u64>,
        ev: Vec<u64>,
    )
        requires
            sched_ok(m1, p as int, p as int),
            lists_ok(m1),
            covered(m1, p as int),
            !m1.contains_key(p),
            is_prime(p as int),
            3 <= p as int && p as int <= MAX_CURSOR as int,
            p as int % 2 == 1,
            m1.contains_key((p * 3) as u64) ==> m2 == m1.remove((p * 3) as u64) && e0 == m1[(p
                * 3) as u64]@,
            !m1.contains_key((p * 3) as u64) ==> m2 == m1 && e0 == Seq::<u64>::empty(),
            !e0.contains(p),
            ev@ == e0.push(p),
            pool_ok(self.used_vecs@),
            self.cursor() == p as int + 2,
            self.iterators@ == m2.insert((p * 3) as u64, ev),
        ensures
            self.wf(),
    {
        let m = self.iterators@;
        let dd = (p * 3) as u64;
        let n1 = p as int + 2;
        assert((dd as int) % (p as int) == 0) by (nonlinear_arith)
            requires
                dd as int == 3 * (p as int),
                p as int >= 2,
        ;
        assert((dd as int) % 2 == 1) by (nonlinear_arith)
            requires
                dd as int == 3 * (p as int),
                p as int % 2 == 1,
                p as int >= 0,
        ;
        assert forall|k: u64, i: int|
            m.contains_key(k) && 0 <= i < m[k]@.len() implies #[trigger] entry_ok(
            m,
            n1,
            n1,
            k,
            i,
        ) by {
            if k == dd {
                if i < e0.len() {
                    assert(m[k]@[i] == e0[i]);
                    assert(m1.contains_key(dd));
                    assert(entry_ok(m1, p as int, p as int, dd, i));
                    assert((dd as int) - 2 * (m1[dd]@[i] as int) < p as int);
                    assert(m1[dd]@[i] as int > p as int);
                    assert(false);
                } else {
                    assert(m[k]@[i] == p);
                    assert(dd as int - 2 * (p as int) == p as int);
                }
            } else {
                assert(m2.contains_key(k) && m2[k] == m[k]);
                assert(m1.contains_key(k) && m1[k] == m[k]);
                assert(entry_ok(m1, p as int, p as int, k, i));
                assert(k != p);
                assert((k as int) != p as int + 1);
            }
        }
        assert forall|k: u64, i1: int, i2: int|
            m.contains_key(k) && 0 <= i1 < i2 < m[k]@.len() implies m[k]@[i1] != m[k]@[i2] by {
            if k == dd {
                assert(m[k]@ == e0.push(p));
                if i2 < e0.len() {
                    assert(m1.contains_key(dd));
                    assert(m1[dd]@[i1] != m1[dd]@[i2]);
                } else {
                    assert(m[k]@[i2] == p);
                    assert(m[k]@[i1] == e0[i1]);
                }
            } else {
                assert(m1.contains_key(k) && m1[k] == m[k]);
            }
        }
        assert forall|q: u64|
            3 <= q as int && (q as int) < n1 && is_prime(q as int) && q as int % 2 == 1
            implies #[trigger] scheduled(m, q) by {
            if (q as int) < p as int {
                assert(scheduled(m1, q));
                let k: u64 = choose|k: u64| #[trigger] m1.contains_key(k) && m1[k]@.contains(q);
                if k == dd {
                    let i: int = choose|i: int|
                        0 <= i < m1[dd]@.len() && #[trigger] m1[dd]@[i] == q;
                    assert(m[dd]@ == e0.push(p));
                    assert(e0[i] == q);
                    assert(m[dd]@[i] == q);
                    assert(m.contains_key(dd) && m[dd]@.contains(q));
                } else {
                    assert(m.contains_key(k) && m[k]@.contains(q));
                }
            } else {
                assert(q == p);
                assert(m[dd]@[e0.len() as int] == p);
                assert(m.contains_key(dd) && m[dd]@.contains(p));
            }
        }
    }
}

} // verus!
