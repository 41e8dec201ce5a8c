//! The mathematical model shared by every generator: primality over the
//! integers, and `primes_below`, the ordered sequence of primes under a
//! bound, which every engine's and producer's contract is stated against.

use vstd::prelude::*;

verus! {

/// `n` is prime: at least 2, and no integer strictly between 1 and `n`
/// divides it.
pub open spec fn is_prime(n: int) -> bool {
    n >= 2 && forall|d: int| 2 <= d < n ==> #[trigger] (n % d) != 0
}

/// The primes in `[2, n)`, in increasing order.
pub open spec fn primes_below(n: int) -> Seq<int>
    decreases n,
{
    if n <= 2 {
        Seq::empty()
    } else if is_prime(n - 1) {
        primes_below(n - 1).push(n - 1)
    } else {
        primes_below(n - 1)
    }
}

/// A `u64` result vector, read as a sequence of integers.
pub open spec fn ints_of(s: Seq<u64>) -> Seq<int> {
    Seq::new(s.len(), |i: int| s[i] as int)
}

/// A `u32` result vector, read as a sequence of integers.
pub open spec fn ints_of32(s: Seq<u32>) -> Seq<int> {
    Seq::new(s.len(), |i: int| s[i] as int)
}

/// Widening commutes with appending.
pub proof fn lemma_ints_of_push(s: Seq<u64>, x: u64)
    ensures
        ints_of(s.push(x)) == ints_of(s).push(x as int),
{
    assert(ints_of(s.push(x)) =~= ints_of(s).push(x as int));
}

/// Widening commutes with appending.
pub proof fn lemma_ints_of32_push(s: Seq<u32>, x: u32)
    ensures
        ints_of32(s.push(x)) == ints_of32(s).push(x as int),
{
    assert(ints_of32(s.push(x)) =~= ints_of32(s).push(x as int));
}

/// Every element of `primes_below(n)` is a prime in `[2, n)`, and the
/// sequence is strictly increasing.
pub proof fn lemma_primes_below_elems(n: int)
    ensures
        forall|i: int| 0 <= i < primes_below(n).len() ==> is_prime(#[trigger] primes_below(n)[i]),
        forall|i: int| 0 <= i < primes_below(n).len() ==> 2 <= #[trigger] primes_below(n)[i] < n,
        forall|i: int, j: int|
            0 <= i < j < primes_below(n).len() ==> primes_below(n)[i] < primes_below(n)[j],
    decreases n,
{
    if n > 2 {
        lemma_primes_below_elems(n - 1);
        let s: Seq<int> = primes_below(n - 1);
        if is_prime(n - 1) {
            assert(primes_below(n) == s.push(n - 1));
            assert forall|i: int| 0 <= i < primes_below(n).len() implies is_prime(
                #[trigger] primes_below(n)[i],
            ) && 2 <= primes_below(n)[i] < n by {
                if i < s.len() {
                    assert(primes_below(n)[i] == s[i]);
                } else {
                    assert(primes_below(n)[i] == n - 1);
                }
            }
            assert forall|i: int, j: int|
                0 <= i < j < primes_below(n).len() implies primes_below(n)[i] < primes_below(
                n,
            )[j] by {
                if j < s.len() {
                    assert(primes_below(n)[i] == s[i] && primes_below(n)[j] == s[j]);
                } else {
                    assert(primes_below(n)[i] == s[i] && primes_below(n)[j] == n - 1);
                }
            }
        } else {
            assert(primes_below(n) == s);
        }
    }
}

/// Every prime in `[2, n)` occurs in `primes_below(n)`.
pub proof fn lemma_primes_below_contains(n: int, p: int)
    requires
        2 <= p < n,
        is_prime(p),
    ensures
        primes_below(n).contains(p),
    decreases n,
{
    if p == n - 1 {
        assert(primes_below(n)[primes_below(n).len() - 1] == p);
    } else {
        lemma_primes_below_contains(n - 1, p);
        let i: int = choose|i: int| 0 <= i < primes_below(n - 1).len() && #[trigger] primes_below(n - 1)[i] == p;
        assert(primes_below(n)[i] == p);
    }
}

/// The set law for the bounded engines: `primes_below(n)` holds exactly
/// the integers in `[2, n)` with no divisor other than 1 and themselves,
/// in strictly increasing order (hence without duplicates).
pub proof fn lemma_primes_below_characterization(n: int)
    ensures
        forall|p: int| #[trigger] primes_below(n).contains(p) <==> (2 <= p < n && is_prime(p)),
        forall|i: int, j: int|
            0 <= i < j < primes_below(n).len() ==> primes_below(n)[i] < primes_below(n)[j],
{
    lemma_primes_below_elems(n);
    assert forall|p: int| #[trigger] primes_below(n).contains(p) implies (2 <= p < n
        && is_prime(p)) by {
        let i: int = choose|i: int| 0 <= i < primes_below(n).len() && #[trigger] primes_below(n)[i] == p;
    }
    assert forall|p: int| 2 <= p < n && is_prime(p) implies #[trigger] primes_below(n).contains(
        p,
    ) by {
        lemma_primes_below_contains(n, p);
    }
}

/// A longer prefix of the primes extends a shorter one.
pub proof fn lemma_primes_below_monotone(a: int, b: int)
    requires
        a <= b,
    ensures
        primes_below(a).len() <= primes_below(b).len(),
        primes_below(b).take(primes_below(a).len() as int) == primes_below(a),
    decreases b - a,
{
    if a < b {
        lemma_primes_below_monotone(a, b - 1);
        assert(primes_below(b).take(primes_below(a).len() as int) =~= primes_below(a));
    } else {
        assert(primes_below(b).take(primes_below(a).len() as int) =~= primes_below(a));
    }
}

/// Producing the same number of primes means producing the same primes:
/// two prime prefixes of equal length are equal, whatever bounds they
/// were cut at. This is what makes independent producer instances
/// interchangeable.
pub proof fn lemma_primes_below_len_determines(a: int, b: int)
    requires
        primes_below(a).len() == primes_below(b).len(),
    ensures
        primes_below(a) == primes_below(b),
{
    if a <= b {
        lemma_primes_below_monotone(a, b);
        assert(primes_below(b).take(primes_below(b).len() as int) =~= primes_below(b));
    } else {
        lemma_primes_below_monotone(b, a);
        assert(primes_below(a).take(primes_below(a).len() as int) =~= primes_below(a));
    }
}

/// The first `k` values agree across all generators: any two prime
/// prefixes long enough to be cut at `k` agree on their first `k` values.
pub proof fn lemma_primes_below_take_agree(a: int, b: int, k: int)
    requires
        0 <= k <= primes_below(a).len(),
        k <= primes_below(b).len(),
    ensures
        primes_below(a).take(k) == primes_below(b).take(k),
{
    if a <= b {
        lemma_primes_below_monotone(a, b);
        let la: int = primes_below(a).len() as int;
        assert(primes_below(b).take(la).take(k) =~= primes_below(b).take(k));
        assert(primes_below(a).take(k) == primes_below(b).take(k));
    } else {
        lemma_primes_below_monotone(b, a);
        let lb: int = primes_below(b).len() as int;
        assert(primes_below(a).take(lb).take(k) =~= primes_below(a).take(k));
        assert(primes_below(b).take(k) == primes_below(a).take(k));
    }
}

/// A producer's history determines its next output: at most one prime
/// `p` has a given sequence as exactly the primes before it. So any two
/// producers that have emitted the same primes — whatever their internal
/// bookkeeping, pooled or not — must emit the same value next.
pub proof fn lemma_next_prime_unique(p: int, q: int)
    requires
        is_prime(p),
        is_prime(q),
        primes_below(p) == primes_below(q),
    ensures
        p == q,
{
    lemma_primes_below_elems(p);
    lemma_primes_below_elems(q);
    if p < q {
        lemma_primes_below_contains(q, p);
        let i: int = choose|i: int| 0 <= i < primes_below(q).len() && #[trigger] primes_below(q)[i] == p;
        assert(primes_below(p)[i] == p);
    } else if q < p {
        lemma_primes_below_contains(p, q);
        let i: int = choose|i: int| 0 <= i < primes_below(p).len() && #[trigger] primes_below(p)[i] == q;
        assert(primes_below(q)[i] == q);
    }
}

/// Divisibility carries through a chain: if `a` divides `b` and `b`
/// divides `c`, then `a` divides `c`.
pub proof fn lemma_divides_transitive(a: int, b: int, c: int)
    requires
        2 <= a,
        2 <= b,
        0 <= c,
        b % a == 0,
        c % b == 0,
    ensures
        c % a == 0,
{
    vstd::arithmetic::div_mod::lemma_fundamental_div_mod(c, b);
    vstd::arithmetic::div_mod::lemma_fundamental_div_mod(b, a);
    let kb: int = c / b;
    let ka: int = b / a;
    assert(c == (kb * ka) * a) by (nonlinear_arith)
        requires
            c == b * kb + 0,
            b == a * ka + 0,
    ;
    vstd::arithmetic::div_mod::lemma_mod_multiples_basic(kb * ka, a);
}

/// Distinct multiples of `m` lie at least `m` apart.
pub proof fn lemma_multiples_apart(a: int, b: int, m: int)
    requires
        0 < m,
        0 <= a < b,
        a % m == 0,
        b % m == 0,
    ensures
        b - a >= m,
        (b - a) % m == 0,
{
    vstd::arithmetic::div_mod::lemma_fundamental_div_mod(a, m);
    vstd::arithmetic::div_mod::lemma_fundamental_div_mod(b, m);
    let ka: int = a / m;
    let kb: int = b / m;
    assert(ka < kb && b - a == (kb - ka) * m && b - a >= m) by (nonlinear_arith)
        requires
            a == m * ka + 0,
            b == m * kb + 0,
            a < b,
            0 < m,
    ;
    vstd::arithmetic::div_mod::lemma_mod_multiples_basic(kb - ka, m);
}

/// An even number above 2 is composite.
pub proof fn lemma_even_not_prime(n: int)
    requires
        n > 2,
        n % 2 == 0,
    ensures
        !is_prime(n),
{
    assert(2 <= 2 < n && n % 2 == 0);
}

/// Adding a multiple of `m` does not change a remainder modulo `m`.
pub proof fn lemma_mod_add_multiple(a: int, k: int, m: int)
    requires
        0 < m,
        0 <= a,
        0 <= k,
    ensures
        (a + k * m) % m == a % m,
{
    vstd::arithmetic::div_mod::lemma_mod_multiples_vanish(k, a, m);
    assert(m * k == k * m) by (nonlinear_arith);
}

/// A composite number has a prime divisor smaller than itself.
pub proof fn lemma_composite_has_prime_factor(n: int)
    requires
        n >= 2,
        !is_prime(n),
    ensures
        exists|p: int| is_prime(p) && 2 <= p < n && #[trigger] (n % p) == 0,
    decreases n,
{
    let d: int = choose|d: int| 2 <= d < n && #[trigger] (n % d) == 0;
    assert(2 <= d < n && n % d == 0);
    if is_prime(d) {
        assert(is_prime(d) && 2 <= d < n && n % d == 0);
    } else {
        lemma_composite_has_prime_factor(d);
        let p: int = choose|p: int| is_prime(p) && 2 <= p < d && #[trigger] (d % p) == 0;
        lemma_divides_transitive(p, d, n);
        assert(is_prime(p) && 2 <= p < n && n % p == 0);
    }
}

/// A composite number has a prime divisor no larger than its square
/// root: the fact behind stopping trial division at the square root.
pub proof fn lemma_small_prime_factor(n: int)
    requires
        n >= 2,
        !is_prime(n),
    ensures
        exists|p: int|
            is_prime(p) && 2 <= p < n && #[trigger] (n % p) == 0 && p * p <= n,
{
    lemma_composite_has_prime_factor(n);
    let p: int = choose|p: int| is_prime(p) && 2 <= p < n && #[trigger] (n % p) == 0;
    if p * p <= n {
        assert(is_prime(p) && 2 <= p < n && n % p == 0 && p * p <= n);
    } else {
        vstd::arithmetic::div_mod::lemma_fundamental_div_mod(n, p);
        let m: int = n / p;
        assert(2 <= m && m < p && m * m < n && m < n) by (nonlinear_arith)
            requires
                n == p * m + 0,
                p * p > n,
                2 <= p < n,
        ;
        vstd::arithmetic::div_mod::lemma_mod_multiples_basic(p, m);
        assert(n % m == 0);
        if is_prime(m) {
            assert(is_prime(m) && 2 <= m < n && n % m == 0 && m * m <= n);
        } else {
            lemma_composite_has_prime_factor(m);
            let q: int = choose|q: int| is_prime(q) && 2 <= q < m && #[trigger] (m % q) == 0;
            lemma_divides_transitive(q, m, n);
            assert(q * q < m * m) by (nonlinear_arith)
                requires
                    2 <= q < m,
            ;
            assert(is_prime(q) && 2 <= q < n && n % q == 0 && q * q <= n);
        }
    }
}

/// `n` has a divisor other than 1 and itself below `b`: the property
/// the sieves' marking phase establishes for each marked candidate.
pub open spec fn has_proper_divisor_below(n: int, b: int) -> bool {
    exists|d: int| 2 <= d < b && #[trigger] (n % d) == 0 && d != n
}

/// Once the divisor bound has moved past `n`, having a proper divisor
/// below it is exactly being composite.
pub proof fn lemma_proper_divisor_composite(n: int, b: int)
    requires
        2 <= n < b,
    ensures
        has_proper_divisor_below(n, b) <==> !is_prime(n),
{
    if has_proper_divisor_below(n, b) {
        let d: int = choose|d: int| 2 <= d < b && #[trigger] (n % d) == 0 && d != n;
        if d > n {
            assert(n % d == n) by (nonlinear_arith)
                requires
                    0 <= n < d,
            ;
        }
        assert(2 <= d < n && n % d == 0);
        assert(!is_prime(n));
    }
    if !is_prime(n) {
        let d: int = choose|d: int| 2 <= d < n && #[trigger] (n % d) == 0;
        assert(2 <= d < b && n % d == 0 && d != n);
        assert(has_proper_divisor_below(n, b));
    }
}

/// If the prime prefix did not grow from `a` to `b`, there is no prime
/// in `[a, b)`.
pub proof fn lemma_no_primes_between(a: int, b: int)
    requires
        2 <= a <= b,
        primes_below(a) == primes_below(b),
    ensures
        forall|q: int| a <= q < b ==> !is_prime(q),
{
    lemma_primes_below_elems(a);
    assert forall|q: int| a <= q < b implies !is_prime(q) by {
        if is_prime(q) {
            lemma_primes_below_contains(b, q);
            let i: int = choose|i: int| 0 <= i < primes_below(b).len() && #[trigger] primes_below(b)[i] == q;
            assert(primes_below(a)[i] == q);
        }
    }
}

} // verus!
