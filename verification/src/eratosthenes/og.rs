//! The classic bounded Sieve of Eratosthenes over a dense candidate
//! array: one cell per integer from 2 up to the bound, zeroed once a
//! proper divisor of it is found.

use vstd::prelude::*;

use crate::primality::{
    has_proper_divisor_below, ints_of, lemma_divides_transitive, lemma_ints_of_push,
    lemma_mod_add_multiple, lemma_multiples_apart, lemma_proper_divisor_composite, primes_below,
};

verus! {

/// What cell `t` (standing for the integer `t + 2`) must hold once
/// divisors below `b` have been sieved, and the multiples of `v` from
/// `2v` up to cell `j` have additionally been zeroed: zero when such a
/// divisor exists, the integer itself otherwise. `j == -1` disables the
/// extra, mid-marking part.
spec fn cell_value(t: int, b: int, v: int, j: int) -> int {
    if has_proper_divisor_below(t + 2, b) || ((t + 2) % v == 0 && t + 2 >= 2 * v && t <= j) {
        0
    } else {
        t + 2
    }
}

/// Every cell of the candidate array holds its `cell_value`.
spec fn cells_ok(cells: Seq<u64>, b: int, v: int, j: int) -> bool {
    forall|t: int| 0 <= t < cells.len() ==> (#[trigger] cells[t]) as int == cell_value(t, b, v, j)
}

/// Returns every prime up to `limit`, inclusive, in increasing order.
pub fn primes(limit: u64) -> (r: Vec<u64>)
    requires
        limit < usize::MAX as u64,
    ensures
        ints_of(r@) == primes_below(limit as int + 1),
{
    let mut r: Vec<u64> = Vec::new();
    if limit < 2 {
        proof {
            assert(ints_of(r@) =~= primes_below(limit as int + 1));
        }
        return r;
    }
    let mut candidates: Vec<u64> = Vec::new();
    let mut v: u64 = 2;
    while v <= limit
        invariant
            2 <= v <= limit + 1,
            limit < usize::MAX as u64,
            candidates@.len() == v - 2,
            forall|j: int| 0 <= j < candidates@.len() ==> (#[trigger] candidates@[j]) as int == j
                + 2,
        decreases limit + 1 - v,
    {
        candidates.push(v);
        v = v + 1;
    }
    let n: usize = candidates.len();
    let ghost gn: int = n as int;
    proof {
        assert(cells_ok(candidates@, 2, 2, -1));
    }
    let mut i: usize = 0;
    while i < n
        invariant
            n == candidates@.len(),
            gn == n as int,
            gn + 1 == limit,
            2 <= limit < usize::MAX as u64,
            0 <= i <= n,
            cells_ok(candidates@, i + 2, 2, -1),
        decreases gn - i,
    {
        let ghost b: int = i + 2;
        let value: u64 = candidates[i];
        assert(candidates@[i as int] as int == cell_value(i as int, b, 2, -1));
        if value != 0 {
            assert(!has_proper_divisor_below(b, b) && value == b);
            let step: usize = value as usize;
            let mut j: usize = i;
            proof {
                assert(b % b == 0) by (nonlinear_arith)
                    requires
                        b >= 2,
                ;
                assert forall|t: int| 0 <= t < gn implies (#[trigger] candidates@[t]) as int
                    == cell_value(t, b, b, j as int) by {
                    assert(candidates@[t] as int == cell_value(t, b, 2, -1));
                    if (t + 2) % b == 0 && t + 2 >= 2 * b && t <= j {
                        assert(false);
                    }
                }
            }
            while n - j > step
                invariant
                    n == candidates@.len(),
                    gn == n as int,
                    step == b,
                    2 <= b,
                    i <= j < n,
                    (j + 2) % b == 0,
                    j + 2 >= b,
                    cells_ok(candidates@, b, b, j as int),
                decreases gn - j,
            {
                j = j + step;
                let ghost before: Seq<u64> = candidates@;
                candidates.set(j, 0);
                proof {
                    lemma_mod_add_multiple(j - step + 2, 1, b);
                    assert((j + 2) % b == 0);
                    assert(j + 2 >= 2 * b);
                    assert forall|t: int| 0 <= t < gn implies (#[trigger] candidates@[t]) as int
                        == cell_value(t, b, b, j as int) by {
                        assert(before[t] as int == cell_value(t, b, b, j - step));
                        if t == j {
                            assert(candidates@[t] as int == 0);
                        } else {
                            assert(candidates@[t] == before[t]);
                            if (t + 2) % b == 0 && t + 2 >= 2 * b && j - step < t <= j {
                                lemma_multiples_apart(j - step + 2, t + 2, b);
                                assert(false);
                            }
                        }
                    }
                }
            }
            proof {
                assert forall|t: int| 0 <= t < gn implies (#[trigger] candidates@[t]) as int
                    == cell_value(t, b + 1, 2, -1) by {
                    assert(candidates@[t] as int == cell_value(t, b, b, j as int));
                    if (t + 2) % b == 0 && t + 2 >= 2 * b && t > j {
                        lemma_multiples_apart(j + 2, t + 2, b);
                        assert(false);
                    }
                    if has_proper_divisor_below(t + 2, b + 1) {
                        let d: int = choose|d: int|
                            2 <= d < b + 1 && #[trigger] ((t + 2) % d) == 0 && d != t + 2;
                        if d < b {
                            assert(has_proper_divisor_below(t + 2, b));
                        } else {
                            assert(d == b && (t + 2) % b == 0);
                            if t + 2 < 2 * b {
                                if t + 2 < b {
                                    assert((t + 2) % b == t + 2) by (nonlinear_arith)
                                        requires
                                            0 <= t + 2 < b,
                                    ;
                                } else if t + 2 > b {
                                    lemma_multiples_apart(b, t + 2, b);
                                }
                                assert(false);
                            }
                        }
                    }
                    if has_proper_divisor_below(t + 2, b) {
                        let d: int = choose|d: int|
                            2 <= d < b && #[trigger] ((t + 2) % d) == 0 && d != t + 2;
                        assert(2 <= d < b + 1 && (t + 2) % d == 0 && d != t + 2);
                        assert(has_proper_divisor_below(t + 2, b + 1));
                    }
                    if (t + 2) % b == 0 && t + 2 >= 2 * b {
                        assert(t + 2 != b);
                        assert(2 <= b < b + 1 && (t + 2) % b == 0 && b != t + 2);
                        assert(has_proper_divisor_below(t + 2, b + 1));
                    }
                }
            }
        } else {
            proof {
                assert(has_proper_divisor_below(b, b));
                assert(b % b == 0) by (nonlinear_arith)
                    requires
                        b >= 2,
                ;
                let d0: int = choose|d: int| 2 <= d < b && #[trigger] (b % d) == 0 && d != b;
                assert forall|t: int| 0 <= t < gn implies (#[trigger] candidates@[t]) as int
                    == cell_value(t, b + 1, 2, -1) by {
                    assert(candidates@[t] as int == cell_value(t, b, 2, -1));
                    if has_proper_divisor_below(t + 2, b + 1) {
                        let d: int = choose|d: int|
                            2 <= d < b + 1 && #[trigger] ((t + 2) % d) == 0 && d != t + 2;
                        if d == b {
                            lemma_divides_transitive(d0, b, t + 2);
                            if t + 2 < b {
                                assert((t + 2) % b == t + 2) by (nonlinear_arith)
                                    requires
                                        0 <= t + 2 < b,
                                ;
                            } else if b < t + 2 && t + 2 < 2 * b {
                                lemma_multiples_apart(b, t + 2, b);
                            }
                            assert(t + 2 >= 2 * b);
                            assert(2 <= d0 < b && (t + 2) % d0 == 0 && d0 != t + 2);
                        }
                        assert(has_proper_divisor_below(t + 2, b));
                    }
                    if has_proper_divisor_below(t + 2, b) {
                        let d: int = choose|d: int|
                            2 <= d < b && #[trigger] ((t + 2) % d) == 0 && d != t + 2;
                        assert(2 <= d < b + 1 && (t + 2) % d == 0 && d != t + 2);
                        assert(has_proper_divisor_below(t + 2, b + 1));
                    }
                }
            }
        }
        i = i + 1;
    }
    let mut idx: usize = 0;
    while idx < n
        invariant
            n == candidates@.len(),
            gn == n as int,
            gn + 1 == limit,
            2 <= limit < usize::MAX as u64,
            0 <= idx <= n,
            cells_ok(candidates@, gn + 2, 2, -1),
            ints_of(r@) == primes_below(idx + 2),
        decreases gn - idx,
    {
        let c: u64 = candidates[idx];
        proof {
            assert(candidates@[idx as int] as int == cell_value(idx as int, gn + 2, 2, -1));
            lemma_proper_divisor_composite(idx + 2, gn + 2);
        }
        if c != 0 {
            proof {
                lemma_ints_of_push(r@, c);
            }
            r.push(c);
        }
        idx = idx + 1;
    }
    r
}

} // verus!
