//! A bounded Sieve of Eratosthenes that skips even numbers: cell 0
//! holds the prime 2, and cell `t` (for `t >= 1`) stands for the odd
//! value `2t + 1`, zeroed once a proper divisor of it is found. Marking
//! steps land only on odd multiples; the even ones were never stored.

use vstd::prelude::*;

use crate::primality::{
    is_prime,
    has_proper_divisor_below, ints_of, lemma_divides_transitive, lemma_even_not_prime,
    lemma_ints_of_push, lemma_mod_add_multiple, lemma_multiples_apart,
    lemma_proper_divisor_composite, primes_below,
};

verus! {

/// What cell `t >= 1` (the odd value `2t + 1`) must hold once divisors
/// below `b` have been sieved, and the odd multiples of `v` from `3v`
/// up to cell `j` have additionally been zeroed. `j == -1` disables the
/// mid-marking part.
spec fn cell_value(t: int, b: int, v: int, j: int) -> int {
    let u: int = 2 * t + 1;
    if has_proper_divisor_below(u, b) || (u % v == 0 && u >= 3 * v && t <= j) {
        0
    } else {
        u
    }
}

/// Cell 0 holds 2 and every odd cell holds its `cell_value`.
spec fn cells_ok(cells: Seq<u64>, b: int, v: int, j: int) -> bool {
    &&& cells.len() >= 1
    &&& cells[0] as int == 2
    &&& forall|t: int| 1 <= t < cells.len() ==> (#[trigger] cells[t]) as int == cell_value(t, b, v, j)
}

/// Returns every prime up to `limit`, inclusive, in increasing order.
pub fn primes(limit: u64) -> (r: Vec<u64>)
    requires
        limit < usize::MAX as u64,
    ensures
        ints_of(r@) == primes_below(limit as int + 1),
{
    let mut r: Vec<u64> = Vec::new();
    if limit < 2 {
        proof {
            assert(ints_of(r@) =~= primes_below(limit as int + 1));
        }
        return r;
    }
    let mut candidates: Vec<u64> = Vec::new();
    candidates.push(2);
    let mut u: u64 = 3;
    while u <= limit
        invariant
            u % 2 == 1,
            3 <= u,
            limit < usize::MAX as u64,
            u == 2 * candidates@.len() + 1,
            u - 2 <= limit,
            candidates@.len() >= 1,
            candidates@[0] as int == 2,
            forall|t: int| 1 <= t < candidates@.len() ==> (#[trigger] candidates@[t]) as int == 2
                * t + 1,
        decreases limit + 2 - u,
    {
        candidates.push(u);
        u = u + 2;
    }
    let n: usize = candidates.len();
    let ghost gn: int = n as int;
    proof {
        assert(2 * gn - 1 <= limit < 2 * gn + 1);
        assert forall|t: int| 1 <= t < gn implies (#[trigger] candidates@[t]) as int == cell_value(
            t,
            3,
            3,
            -1,
        ) by {
            assert((2 * t + 1) % 2 == 1) by (nonlinear_arith);
            if has_proper_divisor_below(2 * t + 1, 3) {
                let d: int = choose|d: int|
                    2 <= d < 3 && #[trigger] ((2 * t + 1) % d) == 0 && d != 2 * t + 1;
                assert(false);
            }
        }
    }
    let mut i: usize = 1;
    while i < n
        invariant
            n == candidates@.len(),
            gn == n as int,
            2 * gn - 1 <= limit < 2 * gn + 1,
            2 <= limit < usize::MAX as u64,
            1 <= i <= n,
            cells_ok(candidates@, 2 * i + 1, 3, -1),
        decreases gn - i,
    {
        let ghost b: int = 2 * i + 1;
        proof {
            assert((2 * i + 1int) % 2 == 1) by (nonlinear_arith);
            assert((2 * i + 2int) % 2 == 0) by (nonlinear_arith);
        }
        let value: u64 = candidates[i];
        assert(candidates@[i as int] as int == cell_value(i as int, b, 3, -1));
        if value != 0 {
            assert(!has_proper_divisor_below(b, b) && value == b);
            let step: usize = value as usize;
            let mut j: usize = i;
            proof {
                assert(b % b == 0) by (nonlinear_arith)
                    requires
                        b >= 2,
                ;
                assert forall|t: int| 1 <= t < gn implies (#[trigger] candidates@[t]) as int
                    == cell_value(t, b, b, j as int) by {
                    assert(candidates@[t] as int == cell_value(t, b, 3, -1));
                    if (2 * t + 1) % b == 0 && 2 * t + 1 >= 3 * b && t <= j {
                        assert(false);
                    }
                }
            }
            while n - j > step
                invariant
                    n == candidates@.len(),
                    gn == n as int,
                    step == b,
                    3 <= b,
                    b % 2 == 1,
                    b % b == 0,
                    i <= j < n,
                    (2 * j + 1) % b == 0,
                    2 * j + 1 >= b,
                    cells_ok(candidates@, b, b, j as int),
                decreases gn - j,
            {
                j = j + step;
                let ghost before: Seq<u64> = candidates@;
                candidates.set(j, 0);
                proof {
                    lemma_mod_add_multiple(2 * (j - step) + 1, 2, b);
                    assert((2 * j + 1) % b == 0);
                    assert(2 * j + 1 >= 3 * b);
                    assert forall|t: int| 1 <= t < gn implies (#[trigger] candidates@[t]) as int
                        == cell_value(t, b, b, j as int) by {
                        assert(before[t] as int == cell_value(t, b, b, j - step));
                        if t == j {
                            assert(candidates@[t] as int == 0);
                        } else {
                            assert(candidates@[t] == before[t]);
                            if (2 * t + 1) % b == 0 && j - step < t <= j {
                                let prev: int = 2 * (j - step) + 1;
                                let cur: int = 2 * t + 1;
                                lemma_multiples_apart(prev, cur, b);
                                if cur - prev < 2 * b {
                                    if b < cur - prev {
                                        lemma_multiples_apart(b, cur - prev, b);
                                    } else if cur - prev < b {
                                        lemma_multiples_apart(cur - prev, b, b);
                                    }
                                    assert(cur - prev == b);
                                    assert((cur - prev) % 2 == 0) by (nonlinear_arith)
                                        requires
                                            cur == 2 * t + 1 && prev == 2 * (j - step) + 1,
                                    ;
                                    assert(false);
                                }
                                assert(false);
                            }
                        }
                    }
                }
            }
            proof {
                assert forall|t: int| 1 <= t < gn implies (#[trigger] candidates@[t]) as int
                    == cell_value(t, b + 2, 3, -1) by {
                    let u2: int = 2 * t + 1;
                    assert((2 * t + 1) % 2 == 1) by (nonlinear_arith);
                    assert(candidates@[t] as int == cell_value(t, b, b, j as int));
                    if u2 % b == 0 && u2 >= 3 * b && t > j {
                        let prev: int = 2 * j + 1;
                        if prev < u2 {
                            lemma_multiples_apart(prev, u2, b);
                            if u2 - prev < 2 * b {
                                if b < u2 - prev {
                                    lemma_multiples_apart(b, u2 - prev, b);
                                } else if u2 - prev < b {
                                    lemma_multiples_apart(u2 - prev, b, b);
                                }
                                assert(u2 - prev == b);
                                assert((u2 - prev) % 2 == 0) by (nonlinear_arith)
                                    requires
                                        u2 == 2 * t + 1 && prev == 2 * j + 1,
                                ;
                                assert(false);
                            }
                            assert(t >= j + b);
                            assert(false);
                        }
                        assert(false);
                    }
                    if has_proper_divisor_below(u2, b + 2) {
                        let d: int = choose|d: int|
                            2 <= d < b + 2 && #[trigger] (u2 % d) == 0 && d != u2;
                        if d == b + 1 {
                            lemma_divides_transitive(2, b + 1, u2);
                            assert(false);
                        }
                        if d == b {
                            if u2 < b {
                                assert(u2 % b == u2) by (nonlinear_arith)
                                    requires
                                        0 <= u2 < b,
                                ;
                                assert(false);
                            } else if b < u2 && u2 < 3 * b {
                                lemma_multiples_apart(b, u2, b);
                                assert(u2 - b == b || u2 - b >= 2 * b) by {
                                    if b < u2 - b {
                                        lemma_multiples_apart(b, u2 - b, b);
                                    } else if u2 - b < b {
                                        lemma_multiples_apart(u2 - b, b, b);
                                    }
                                }
                                assert(u2 == 2 * b);
                                assert(u2 % 2 == 0) by (nonlinear_arith)
                                    requires
                                        u2 == 2 * b,
                                ;
                                assert(false);
                            }
                            assert(u2 % b == 0 && u2 >= 3 * b);
                        } else {
                            assert(2 <= d < b && u2 % d == 0 && d != u2);
                            assert(has_proper_divisor_below(u2, b));
                        }
                    }
                    if has_proper_divisor_below(u2, b) {
                        let d: int = choose|d: int| 2 <= d < b && #[trigger] (u2 % d) == 0 && d != u2;
                        assert(2 <= d < b + 2 && u2 % d == 0 && d != u2);
                        assert(has_proper_divisor_below(u2, b + 2));
                    }
                    if u2 % b == 0 && u2 >= 3 * b {
                        assert(u2 != b);
                        assert(2 <= b < b + 2 && u2 % b == 0 && b != u2);
                        assert(has_proper_divisor_below(u2, b + 2));
                    }
                }
            }
        } else {
            proof {
                assert(has_proper_divisor_below(b, b));
                assert(b % b == 0) by (nonlinear_arith)
                    requires
                        b >= 2,
                ;
                let d0: int = choose|d: int| 2 <= d < b && #[trigger] (b % d) == 0 && d != b;
                assert forall|t: int| 1 <= t < gn implies (#[trigger] candidates@[t]) as int
                    == cell_value(t, b + 2, 3, -1) by {
                    let u2: int = 2 * t + 1;
                    assert((2 * t + 1) % 2 == 1) by (nonlinear_arith);
                    assert(candidates@[t] as int == cell_value(t, b, 3, -1));
                    if has_proper_divisor_below(u2, b + 2) {
                        let d: int = choose|d: int|
                            2 <= d < b + 2 && #[trigger] (u2 % d) == 0 && d != u2;
                        if d == b + 1 {
                            lemma_divides_transitive(2, b + 1, u2);
                            assert(false);
                        }
                        if d == b {
                            lemma_divides_transitive(d0, b, u2);
                            if u2 < b {
                                assert(u2 % b == u2) by (nonlinear_arith)
                                    requires
                                        0 <= u2 < b,
                                ;
                                assert(false);
                            }
                            assert(d0 < b <= u2);
                            assert(2 <= d0 < b && u2 % d0 == 0 && d0 != u2);
                        }
                        assert(has_proper_divisor_below(u2, b));
                    }
                    if has_proper_divisor_below(u2, b) {
                        let d: int = choose|d: int| 2 <= d < b && #[trigger] (u2 % d) == 0 && d != u2;
                        assert(2 <= d < b + 2 && u2 % d == 0 && d != u2);
                        assert(has_proper_divisor_below(u2, b + 2));
                    }
                }
            }
        }
        i = i + 1;
    }
    r.push(2);
    proof {
        assert(is_prime(2));
        assert(primes_below(2) =~= Seq::<int>::empty());
        assert(primes_below(3) == primes_below(2).push(2));
        assert(ints_of(r@) =~= primes_below(3));
    }
    let mut idx: usize = 1;
    while idx < n
        invariant
            n == candidates@.len(),
            gn == n as int,
            2 * gn - 1 <= limit < 2 * gn + 1,
            2 <= limit < usize::MAX as u64,
            1 <= idx <= n,
            cells_ok(candidates@, 2 * gn + 1, 3, -1),
            ints_of(r@) == primes_below(2 * idx + 1),
        decreases gn - idx,
    {
        let c: u64 = candidates[idx];
        proof {
            assert(candidates@[idx as int] as int == cell_value(idx as int, 2 * gn + 1, 3, -1));
            lemma_proper_divisor_composite(2 * idx + 1, 2 * gn + 1);
            assert((2 * idx + 2int) % 2 == 0) by (nonlinear_arith);
            lemma_even_not_prime(2 * idx + 2);
            assert(primes_below(2 * idx + 2) == if crate::primality::is_prime(2 * idx + 1) {
                primes_below(2 * idx + 1).push(2 * idx + 1)
            } else {
                primes_below(2 * idx + 1)
            });
        }
        if c != 0 {
            proof {
                lemma_ints_of_push(r@, c);
            }
            r.push(c);
        }
        idx = idx + 1;
    }
    proof {
        if limit == 2 * gn - 1 {
            assert((2 * gn) % 2 == 0) by (nonlinear_arith);
            lemma_even_not_prime(2 * gn);
            assert(primes_below(2 * gn + 1) == primes_below(limit as int + 1));
        }
    }
    r
}

} // verus!
