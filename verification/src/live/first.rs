//! The live incremental sieve: an unbounded producer that keeps a
//! deferred marking schedule — a map from each future composite value
//! to the primes that divide it. Reaching a scheduled value proves it
//! composite, and each of its primes is pushed forward to its next
//! multiple; reaching an unscheduled value proves it prime.

use std::collections::HashMap;

use vstd::prelude::*;

use crate::primality::{
    is_prime, lemma_composite_has_prime_factor, lemma_mod_add_multiple, lemma_multiples_apart,
    lemma_no_primes_between, lemma_primes_below_len_determines, primes_below,
};

verus! {

broadcast use vstd::std_specs::hash::group_hash_axioms;

/// The last cursor value the producer will test: past it, pushing a
/// prime's next multiple forward could overflow the 64-bit domain, so
/// the producer signals exhaustion instead of wrapping around.
pub const MAX_CURSOR: u64 = (u64::MAX - 1) / 2;

/// Element `idx` of the schedule entry at key `k` is a prime below
/// `n` that divides `k`, and `k` is its least multiple at or past `lo`.
spec fn entry_ok(m: Map<u64, Vec<u64>>, n: int, lo: int, k: u64, idx: int) -> bool {
    let p = m[k]@[idx] as int;
    &&& is_prime(p)
    &&& 2 <= p < n
    &&& (k as int) % p == 0
    &&& lo <= k as int
    &&& (k as int) - p < lo
}

/// Every element of every schedule entry satisfies `entry_ok`.
spec fn sched_ok(m: Map<u64, Vec<u64>>, n: int, lo: int) -> bool {
    forall|k: u64, idx: int|
        m.contains_key(k) && 0 <= idx < m[k]@.len() ==> entry_ok(m, n, lo, k, idx)
}

/// Schedule entries are nonempty and hold no duplicate primes.
spec fn lists_ok(m: Map<u64, Vec<u64>>) -> bool {
    &&& forall|k: u64| #[trigger] m.contains_key(k) ==> m[k]@.len() >= 1
    &&& forall|k: u64, i1: int, i2: int|
        m.contains_key(k) && 0 <= i1 < i2 < m[k]@.len() ==> m[k]@[i1] != m[k]@[i2]
}

/// `p` appears in some schedule entry.
spec fn scheduled(m: Map<u64, Vec<u64>>, p: u64) -> bool {
    exists|k: u64| #[trigger] m.contains_key(k) && m[k]@.contains(p)
}

/// Every prime below `n` is scheduled.
spec fn covered(m: Map<u64, Vec<u64>>, n: int) -> bool {
    forall|q: u64| 2 <= q as int && (q as int) < n && is_prime(q as int) ==> #[trigger] scheduled(m, q)
}

/// A prime can sit at only one key: its least scheduled multiple.
proof fn lemma_scheduled_key_unique(
    m: Map<u64, Vec<u64>>,
    n: int,
    lo: int,
    k1: u64,
    k2: u64,
    p: u64,
)
    requires
        sched_ok(m, n, lo),
        m.contains_key(k1),
        m.contains_key(k2),
        m[k1]@.contains(p),
        m[k2]@.contains(p),
    ensures
        k1 == k2,
{
    let i1: int = choose|i: int| 0 <= i < m[k1]@.len() && #[trigger] m[k1]@[i] == p;
    let i2: int = choose|i: int| 0 <= i < m[k2]@.len() && #[trigger] m[k2]@[i] == p;
    assert(entry_ok(m, n, lo, k1, i1));
    assert(entry_ok(m, n, lo, k2, i2));
    if (k1 as int) < k2 as int {
        lemma_multiples_apart(k1 as int, k2 as int, p as int);
        assert(false);
    } else if (k2 as int) < k1 as int {
        lemma_multiples_apart(k2 as int, k1 as int, p as int);
        assert(false);
    }
}

/// Under the schedule invariant, a composite cursor value is always a
/// key of the schedule.
proof fn lemma_composite_is_scheduled(m: Map<u64, Vec<u64>>, n: u64)
    requires
        sched_ok(m, n as int, n as int),
        covered(m, n as int),
        2 <= n,
        !is_prime(n as int),
    ensures
        m.contains_key(n),
{
    lemma_composite_has_prime_factor(n as int);
    let p: int = choose|p: int| is_prime(p) && 2 <= p < n as int && #[trigger] ((n as int) % p) == 0;
    assert(scheduled(m, p as u64));
    let k: u64 = choose|k: u64| #[trigger] m.contains_key(k) && m[k]@.contains(p as u64);
    let i: int = choose|i: int| 0 <= i < m[k]@.len() && #[trigger] m[k]@[i] == p as u64;
    assert(entry_ok(m, n as int, n as int, k, i));
    if (n as int) < k as int {
        lemma_multiples_apart(n as int, k as int, p);
        assert(false);
    }
    assert(k == n);
}

/// Independent instances are interchangeable: two producers that have
/// answered the same number of calls have emitted exactly the same
/// primes — there is no hidden shared state to drift on.
pub proof fn lemma_instances_interchangeable(a: Primes, b: Primes)
    requires
        a.wf(),
        b.wf(),
        a.emitted().len() == b.emitted().len(),
    ensures
        a.emitted() == b.emitted(),
{
    lemma_primes_below_len_determines(a.cursor(), b.cursor());
}

/// A lazy, unbounded producer of primes in increasing order, backed by
/// the deferred marking schedule.
pub struct Primes {
    iterators: HashMap<u64, Vec<u64>>,
    next: u64,
}

impl Primes {
    /// The next candidate to test. Every prime below the cursor has
    /// been emitted, and nothing at or above it has.
    pub closed spec fn cursor(self) -> int {
        self.next as int
    }

    /// The primes emitted so far, in increasing order.
    pub open spec fn emitted(self) -> Seq<int> {
        primes_below(self.cursor())
    }

    /// The schedule invariant: every scheduled prime divides its key,
    /// sits at its least multiple at or past the cursor, and every
    /// emitted prime is scheduled exactly once.
    pub closed spec fn wf(self) -> bool {
        &&& 2 <= self.cursor() <= MAX_CURSOR as int + 1
        &&& sched_ok(self.iterators@, self.cursor(), self.cursor())
        &&& lists_ok(self.iterators@)
        &&& covered(self.iterators@, self.cursor())
    }

    /// A fresh producer: cursor at 2, empty schedule, nothing emitted.
    pub fn new() -> (r: Primes)
        ensures
            r.wf(),
            r.cursor() == 2,
            r.emitted() == Seq::<int>::empty(),
    {
        let r = Primes { iterators: HashMap::new(), next: 2 };
        proof {
            assert(primes_below(2) =~= Seq::<int>::empty());
        }
        r
    }

    /// Advances to and returns the next prime, or `None` once the
    /// cursor would leave the safe 64-bit range. The returned prime is
    /// exactly the one whose predecessors are the primes already
    /// emitted; the cursor moves just past it.
    pub fn next(&mut self) -> (r: Option<u64>)
        requires
            old(self).wf(),
        ensures
            final(self).wf(),
            match r {
                Some(p) => {
                    &&& is_prime(p as int)
                    &&& old(self).cursor() <= p as int && p <= MAX_CURSOR
                    &&& primes_below(p as int) == old(self).emitted()
                    &&& final(self).cursor() == p as int + 1
                    &&& final(self).emitted() == old(self).emitted().push(p as int)
                },
                None => {
                    &&& final(self).emitted() == old(self).emitted()
                    &&& final(self).cursor() > MAX_CURSOR as int
                },
            },
            (r is Some) <==> exists|q: int|
                old(self).cursor() <= q <= MAX_CURSOR && is_prime(q),
    {
        loop
            invariant
                self.wf(),
                old(self).wf(),
                old(self).cursor() <= self.cursor() <= MAX_CURSOR as int + 1,
                primes_below(self.cursor()) == primes_below(old(self).cursor()),
            decreases MAX_CURSOR as int + 1 - self.cursor(),
        {
            if self.next > MAX_CURSOR {
                proof {
                    lemma_no_primes_between(old(self).cursor(), self.cursor());
                }
                return None;
            }
            let ghost nn: u64 = self.next;
            let ghost m0: Map<u64, Vec<u64>> = self.iterators@;
            let lst_opt = self.iterators.remove(&self.next);
            match lst_opt {
                Some(lst) => {
                    proof {
                        assert(self.iterators@ == m0.remove(nn));
                        assert(m0.contains_key(nn) && m0[nn] == lst);
                        assert(entry_ok(m0, nn as int, nn as int, nn, 0));
                        assert(!is_prime(nn as int));
                        self.redistribute_entry_invariants(m0, nn, lst@, 0);
                    }
                    let mut idx: usize = 0;
                    while idx < lst.len()
                        invariant
                            self.next == nn,
                            2 <= nn <= MAX_CURSOR,
                            0 <= idx <= lst@.len(),
                            sched_ok(self.iterators@, nn as int, nn as int + 1),
                            lists_ok(self.iterators@),
                            forall|t: int|
                                0 <= t < lst@.len() ==> {
                                    let p = #[trigger] lst@[t] as int;
                                    is_prime(p) && 2 <= p < nn as int && (nn as int) % p == 0
                                },
                            forall|t1: int, t2: int|
                                0 <= t1 < t2 < lst@.len() ==> lst@[t1] != lst@[t2],
                            forall|q: u64|
                                2 <= q as int && (q as int) < nn as int && is_prime(q as int)
                                    ==> #[trigger] scheduled(self.iterators@, q) || exists|t: int|
                                    idx <= t < lst@.len() && lst@[t] == q,
                            forall|t: int|
                                idx <= t < lst@.len() ==> !scheduled(
                                    self.iterators@,
                                    #[trigger] lst@[t],
                                ),
                        decreases lst@.len() - idx,
                    {
                        let p = lst[idx];
                        let nv = self.next + p;
                        let ghost m1: Map<u64, Vec<u64>> = self.iterators@;
                        let removed = self.iterators.remove(&nv);
                        let ghost m2: Map<u64, Vec<u64>> = self.iterators@;
                        let mut entry = match removed {
                            Some(e) => e,
                            None => Vec::new(),
                        };
                        let ghost e0: Seq<u64> = entry@;
                        proof {
                            if m1.contains_key(nv) {
                                assert(m2 == m1.remove(nv));
                                assert(e0 == m1[nv]@);
                            } else {
                                assert(m2 =~= m1);
                                assert(e0 =~= Seq::<u64>::empty());
                            }
                            assert(!scheduled(m1, p));
                            if e0.contains(p) {
                                assert(m1.contains_key(nv) && m1[nv]@.contains(p));
                                assert(scheduled(m1, p));
                                assert(false);
                            }
                        }
                        entry.push(p);
                        let ghost ev: Vec<u64> = entry;
                        self.iterators.insert(nv, entry);
                        proof {
                            lemma_mod_add_multiple(nn as int, 1, p as int);
                            self.step_invariants(m1, m2, nn, lst@, idx as int, p, nv, e0, ev);
                        }
                        idx = idx + 1;
                    }
                    proof {
                        let m: Map<u64, Vec<u64>> = self.iterators@;
                        let n1: int = nn as int + 1;
                        assert forall|k: u64, i: int|
                            m.contains_key(k) && 0 <= i < m[k]@.len() implies #[trigger] entry_ok(
                            m,
                            n1,
                            n1,
                            k,
                            i,
                        ) by {
                            assert(entry_ok(m, nn as int, nn as int + 1, k, i));
                        }
                        assert forall|q: u64|
                            2 <= q as int && (q as int) < nn as int + 1 && is_prime(q as int) implies #[trigger] scheduled(
                            m,
                            q,
                        ) by {
                            if (q as int) < nn as int {
                            } else {
                                assert(q == nn && is_prime(nn as int));
                                assert(false);
                            }
                        }
                        assert(primes_below(nn as int + 1) == primes_below(nn as int));
                    }
                    self.next = self.next + 1;
                }
                None => {
                    let p = self.next;
                    proof {
                        assert(self.iterators@ =~= m0);
                        if !is_prime(nn as int) {
                            lemma_composite_is_scheduled(m0, nn);
                            assert(false);
                        }
                    }
                    let doubled = p * 2;
                    let ghost m1: Map<u64, Vec<u64>> = self.iterators@;
                    let removed = self.iterators.remove(&doubled);
                    let mut entry = match removed {
                        Some(e) => {
                            proof {
                                assert(m1.contains_key(doubled) && m1[doubled] == e);
                                assert(m1[doubled]@.len() >= 1);
                                assert(entry_ok(m1, nn as int, nn as int, doubled, 0));
                                assert(doubled as int - m1[doubled]@[0] < nn as int);
                                assert(m1[doubled]@[0] < nn);
                                assert(false);
                            }
                            e
                        },
                        None => Vec::new(),
                    };
                    entry.push(p);
                    let ghost ev: Vec<u64> = entry;
                    self.iterators.insert(doubled, entry);
                    self.next = self.next + 1;
                    proof {
                        assert(self.iterators@ =~= m1.insert(doubled, ev));
                        self.register_prime_invariants(m1, p, ev);
                        assert(primes_below(p as int + 1) == primes_below(p as int).push(
                            p as int,
                        ));
                    }
                    return Some(p);
                }
            }
        }
    }

    /// Entering the redistribution loop: removing the entry at the
    /// cursor leaves a schedule whose keys are past the cursor, with
    /// the removed primes pending.
    proof fn redistribute_entry_invariants(self, m0: Map<u64, Vec<u64>>, nn: u64, lst: Seq<u64>, idx: int)
        requires
            sched_ok(m0, nn as int, nn as int),
            lists_ok(m0),
            covered(m0, nn as int),
            m0.contains_key(nn),
            m0[nn]@ == lst,
            self.iterators@ == m0.remove(nn),
            idx == 0,
        ensures
            sched_ok(self.iterators@, nn as int, nn as int + 1),
            lists_ok(self.iterators@),
            forall|t: int|
                0 <= t < lst.len() ==> {
                    let p = #[trigger] lst[t] as int;
                    is_prime(p) && 2 <= p < nn as int && (nn as int) % p == 0
                },
            forall|t1: int, t2: int| 0 <= t1 < t2 < lst.len() ==> lst[t1] != lst[t2],
            forall|q: u64|
                2 <= q as int && (q as int) < nn as int && is_prime(q as int) ==> #[trigger] scheduled(
                    self.iterators@,
                    q,
                ) || exists|t: int| idx <= t < lst.len() && lst[t] == q,
            forall|t: int|
                idx <= t < lst.len() ==> !scheduled(self.iterators@, #[trigger] lst[t]),
    {
        let m = self.iterators@;
        let lo1: int = nn as int + 1;
        assert forall|k: u64, i: int|
            m.contains_key(k) && 0 <= i < m[k]@.len() implies #[trigger] entry_ok(
            m,
            nn as int,
            lo1,
            k,
            i,
        ) by {
            assert(entry_ok(m0, nn as int, nn as int, k, i));
            assert(k != nn);
        }
        assert forall|t: int| 0 <= t < lst.len() implies {
            let p = #[trigger] lst[t] as int;
            is_prime(p) && 2 <= p < nn as int && (nn as int) % p == 0
        } by {
            assert(entry_ok(m0, nn as int, nn as int, nn, t));
        }
        assert forall|q: u64|
            2 <= q as int && (q as int) < nn as int && is_prime(q as int) implies #[trigger] scheduled(m, q)
            || exists|t: int| idx <= t < lst.len() && lst[t] == q by {
            assert(scheduled(m0, q));
            let k: u64 = choose|k: u64| #[trigger] m0.contains_key(k) && m0[k]@.contains(q);
            if k == nn {
                let t: int = choose|t: int| 0 <= t < lst.len() && #[trigger] lst[t] == q;
                assert(idx <= t < lst.len() && lst[t] == q);
            } else {
                assert(m.contains_key(k) && m[k]@.contains(q));
            }
        }
        assert forall|t: int| idx <= t < lst.len() implies !scheduled(
            m,
            #[trigger] lst[t],
        ) by {
            if scheduled(m, lst[t]) {
                let k: u64 = choose|k: u64| #[trigger] m.contains_key(k) && m[k]@.contains(lst[t]);
                assert(m0.contains_key(k) && m0[k]@.contains(lst[t]));
                assert(m0[nn]@.contains(lst[t]));
                lemma_scheduled_key_unique(m0, nn as int, nn as int, k, nn, lst[t]);
                assert(false);
            }
        }
    }

    /// One redistribution step: moving pending prime `p` to the entry
    /// at its next multiple `nv` preserves the loop invariants.
    proof fn step_invariants(
        self,
        m1: Map<u64, Vec<u64>>,
        m2: Map<u64, Vec<u64>>,
        nn: u64,
        lst: Seq<u64>,
        idx: int,
        p: u64,
        nv: u64,
        e0: Seq<u64>,
        ev: Vec<u64>,
    )
        requires
            sched_ok(m1, nn as int, nn as int + 1),
            lists_ok(m1),
            0 <= idx < lst.len(),
            lst[idx] == p,
            forall|t: int|
                0 <= t < lst.len() ==> {
                    let q = #[trigger] lst[t] as int;
                    is_prime(q) && 2 <= q < nn as int && (nn as int) % q == 0
                },
            forall|t1: int, t2: int| 0 <= t1 < t2 < lst.len() ==> lst[t1] != lst[t2],
            forall|q: u64|
                2 <= q as int && (q as int) < nn as int && is_prime(q as int) ==> #[trigger] scheduled(m1, q)
                    || exists|t: int| idx <= t < lst.len() && lst[t] == q,
            forall|t: int| idx <= t < lst.len() ==> !scheduled(m1, #[trigger] lst[t]),
            m1.contains_key(nv) ==> m2 == m1.remove(nv) && e0 == m1[nv]@,
            !m1.contains_key(nv) ==> m2 == m1 && e0 == Seq::<u64>::empty(),
            nv as int == nn as int + p as int,
            (nv as int) % (p as int) == 0,
            !e0.contains(p),
            ev@ == e0.push(p),
            self.iterators@ == m2.insert(nv, ev),
        ensures
            sched_ok(self.iterators@, nn as int, nn as int + 1),
            lists_ok(self.iterators@),
            forall|q: u64|
                2 <= q as int && (q as int) < nn as int && is_prime(q as int) ==> #[trigger] scheduled(
                    self.iterators@,
                    q,
                ) || exists|t: int| idx + 1 <= t < lst.len() && lst[t] == q,
            forall|t: int|
                idx + 1 <= t < lst.len() ==> !scheduled(self.iterators@, #[trigger] lst[t]),
    {
        let m = self.iterators@;
        let evs = m[nv]@;
        assert(evs == e0.push(p));
        let lo1: int = nn as int + 1;
        assert forall|k: u64, i: int|
            m.contains_key(k) && 0 <= i < m[k]@.len() implies #[trigger] entry_ok(
            m,
            nn as int,
            lo1,
            k,
            i,
        ) by {
            if k == nv {
                if i < e0.len() {
                    assert(m[k]@[i] == e0[i]);
                    assert(m1.contains_key(nv));
                    assert(entry_ok(m1, nn as int, nn as int + 1, nv, i));
                } else {
                    assert(m[k]@[i] == p);
                }
            } else {
                assert(m1.contains_key(k) && m1[k] == m[k]);
                assert(entry_ok(m1, nn as int, nn as int + 1, k, i));
            }
        }
        assert forall|k: u64, i1: int, i2: int|
            m.contains_key(k) && 0 <= i1 < i2 < m[k]@.len() implies m[k]@[i1] != m[k]@[i2] by {
            if k == nv {
                if i2 < e0.len() {
                    assert(m1.contains_key(nv));
                    assert(m1[nv]@[i1] != m1[nv]@[i2]);
                } else {
                    assert(m[k]@[i2] == p);
                    assert(m[k]@[i1] == e0[i1]);
                    assert(!e0.contains(p));
                }
            } else {
                assert(m1.contains_key(k) && m1[k] == m[k]);
            }
        }
        assert forall|q: u64|
            2 <= q as int && (q as int) < nn as int && is_prime(q as int) implies #[trigger] scheduled(m, q)
            || exists|t: int| idx + 1 <= t < lst.len() && lst[t] == q by {
            if scheduled(m1, q) {
                let k: u64 = choose|k: u64| #[trigger] m1.contains_key(k) && m1[k]@.contains(q);
                if k == nv {
                    let i: int = choose|i: int| 0 <= i < m1[nv]@.len() && #[trigger] m1[nv]@[i] == q;
                    assert(evs[i] == q);
                    assert(m.contains_key(nv) && m[nv]@.contains(q));
                    assert(scheduled(m, q));
                } else {
                    assert(m.contains_key(k) && m[k]@.contains(q));
                    assert(scheduled(m, q));
                }
            } else {
                let t: int = choose|t: int| idx <= t < lst.len() && #[trigger] lst[t] == q;
                if t == idx {
                    assert(evs[evs.len() - 1] == p);
                    assert(m.contains_key(nv) && m[nv]@.contains(p));
                    assert(scheduled(m, q));
                } else {
                    assert(idx + 1 <= t < lst.len() && lst[t] == q);
                }
            }
        }
        assert forall|t: int| idx + 1 <= t < lst.len() implies !scheduled(
            m,
            #[trigger] lst[t],
        ) by {
            if scheduled(m, lst[t]) {
                let k: u64 = choose|k: u64| #[trigger] m.contains_key(k) && m[k]@.contains(lst[t]);
                if k == nv {
                    let i: int = choose|i: int| 0 <= i < evs.len() && #[trigger] evs[i] == lst[t];
                    if i < e0.len() {
                        assert(m1.contains_key(nv) && m1[nv]@.contains(lst[t]));
                        assert(scheduled(m1, lst[t]));
                        assert(false);
                    } else {
                        assert(lst[t] == p && lst[idx] == p);
                        assert(false);
                    }
                } else {
                    assert(m1.contains_key(k) && m1[k]@.contains(lst[t]));
                    assert(scheduled(m1, lst[t]));
                    assert(false);
                }
            }
        }
    }

    /// Registering a fresh prime `p` at `2p` restores the full
    /// invariant for the advanced cursor.
    proof fn register_prime_invariants(self, m1: Map<u64, Vec<u64>>, p: u64, ev: Vec<u64>)
        requires
            sched_ok(m1, p as int, p as int),
            lists_ok(m1),
            covered(m1, p as int),
            !m1.contains_key(p),
            is_prime(p as int),
            2 <= p as int && p as int <= MAX_CURSOR as int,
            self.cursor() == p as int + 1,
            ev@ == Seq::<u64>::empty().push(p),
            self.iterators@ == m1.insert((p * 2) as u64, ev),
        ensures
            self.wf(),
    {
        let m = self.iterators@;
        let dd = (p * 2) as u64;
        let n1 = p as int + 1;
        assert((dd as int) % (p as int) == 0) by (nonlinear_arith)
            requires
                dd as int == 2 * (p as int),
                p as int >= 2,
        ;
        assert forall|k: u64, i: int|
            m.contains_key(k) && 0 <= i < m[k]@.len() implies entry_ok(m, n1, n1, k, i) by {
            if k == dd {
                assert(m[k]@ == Seq::<u64>::empty().push(p));
                assert(m[k]@[i] == p);
            } else {
                assert(m1.contains_key(k) && m1[k] == m[k]);
                assert(entry_ok(m1, p as int, p as int, k, i));
                assert(k != p);
            }
        }
        assert forall|k: u64, i1: int, i2: int|
            m.contains_key(k) && 0 <= i1 < i2 < m[k]@.len() implies m[k]@[i1] != m[k]@[i2] by {
            if k == dd {
                assert(m[k]@.len() == 1);
            } else {
                assert(m1.contains_key(k) && m1[k] == m[k]);
            }
        }
        assert forall|q: u64| 2 <= q as int && (q as int) < n1 && is_prime(q as int) implies #[trigger] scheduled(
            m,
            q,
        ) by {
            if (q as int) < p as int {
                assert(scheduled(m1, q));
                let k: u64 = choose|k: u64| #[trigger] m1.contains_key(k) && m1[k]@.contains(q);
                if k == dd {
                    let i: int = choose|i: int| 0 <= i < m1[dd]@.len() && #[trigger] m1[dd]@[i] == q;
                    assert(m[dd]@ == Seq::<u64>::empty().push(p));
                    assert(entry_ok(m1, p as int, p as int, dd, i));
                    lemma_multiples_apart(q as int, dd as int, q as int);
                    assert(scheduled(m, q));
                } else {
                    assert(m.contains_key(k) && m[k]@.contains(q));
                }
            } else {
                assert(q == p);
                assert(m[dd]@[0] == p);
                assert(m.contains_key(dd) && m[dd]@.contains(p));
            }
        }
    }
}

} // verus!
