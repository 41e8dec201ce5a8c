//! A bounded Sieve of Eratosthenes whose markers are packed as single
//! bits in 64-bit words: bit `t` stands for the odd value `2t + 3` and
//! is cleared — by ANDing with the complement of a one-bit mask — once
//! a proper divisor of that value is found. Word index and bit offset
//! are computed explicitly as `t / 64` and `t % 64`.

use vstd::prelude::*;

use crate::primality::{
    has_proper_divisor_below, ints_of, is_prime, lemma_divides_transitive, lemma_even_not_prime,
    lemma_ints_of_push, lemma_mod_add_multiple, lemma_multiples_apart,
    lemma_proper_divisor_composite, primes_below,
};
use vstd::arithmetic::div_mod::{
    lemma_div_is_ordered, lemma_div_plus_one, lemma_fundamental_div_mod, lemma_mod_multiples_basic,
    lemma_multiply_divide_lt,
};

verus! {

/// Bit `t` of the packed word array.
spec fn bit_of(words: Seq<u64>, t: int) -> bool {
    (words[t / 64] >> ((t % 64) as u64)) & 1 == 1
}

/// What bit `t` (the odd value `2t + 3`) must be once divisors below
/// `b` have been sieved, and the odd multiples of `v` from `3v` up to
/// the value `j` have additionally been cleared: clear when such a
/// divisor exists, set otherwise. `j == 1` disables the mid-marking
/// part.
spec fn bit_expected(t: int, b: int, v: int, j: int) -> bool {
    let u: int = 2 * t + 3;
    !(has_proper_divisor_below(u, b) || (u % v == 0 && u >= 3 * v && u <= j))
}

/// Every valid bit of the word array matches `bit_expected`.
spec fn bits_ok(words: Seq<u64>, nbits: int, b: int, v: int, j: int) -> bool {
    forall|t: int| 0 <= t < nbits ==> #[trigger] bit_of(words, t) == bit_expected(t, b, v, j)
}

proof fn lemma_bit_clear(w: u64, s: u64, s2: u64)
    requires
        s < 64,
        s2 < 64,
    ensures
        ((w & (u64::MAX ^ (1u64 << s))) >> s) & 1 == 0,
        s != s2 ==> ((w & (u64::MAX ^ (1u64 << s))) >> s2) & 1 == (w >> s2) & 1,
{
    assert(((w & (u64::MAX ^ (1u64 << s))) >> s) & 1 == 0) by (bit_vector)
        requires
            s < 64,
    ;
    assert(s != s2 ==> ((w & (u64::MAX ^ (1u64 << s))) >> s2) & 1 == (w >> s2) & 1) by (bit_vector)
        requires
            s < 64,
            s2 < 64,
    ;
}

proof fn lemma_bit_all_ones(s: u64)
    requires
        s < 64,
    ensures
        (u64::MAX >> s) & 1 == 1,
{
    assert((u64::MAX >> s) & 1 == 1) by (bit_vector)
        requires
            s < 64,
    ;
}

proof fn lemma_bit01(w: u64, s: u64)
    requires
        s < 64,
    ensures
        (w >> s) & 1 == 0 || (w >> s) & 1 == 1,
{
    assert((w >> s) & 1 == 0 || (w >> s) & 1 == 1) by (bit_vector);
}

/// Clears bit `tt`, leaving every other bit of the array unchanged.
fn clear_bit(words: &mut Vec<u64>, tt: u64)
    requires
        tt / 64 < old(words)@.len(),
    ensures
        final(words)@.len() == old(words)@.len(),
        !bit_of(final(words)@, tt as int),
        forall|t: int|
            0 <= t < final(words)@.len() * 64 && t != tt as int ==> #[trigger] bit_of(
                final(words)@,
                t,
            ) == bit_of(old(words)@, t),
{
    let wlen: usize = words.len();
    let wi_u: u64 = tt / 64;
    assert(wi_u < wlen as u64);
    let wi: usize = wi_u as usize;
    let sh: u64 = tt % 64;
    let w0: u64 = words[wi];
    let masked: u64 = w0 & (u64::MAX ^ (1u64 << sh));
    words.set(wi, masked);
    proof {
        lemma_fundamental_div_mod(tt as int, 64);
        assert forall|t: int| 0 <= t < words@.len() * 64 && t != tt as int implies #[trigger] bit_of(
            words@,
            t,
        ) == bit_of(old(words)@, t) by {
            lemma_fundamental_div_mod(t, 64);
            lemma_multiply_divide_lt(t, 64, words@.len() as int);
            vstd::arithmetic::div_mod::lemma_mod_division_less_than_divisor(t, 64);
            vstd::arithmetic::div_mod::lemma_div_pos_is_pos(t, 64);
            if t / 64 == tt as int / 64 {
                assert(t % 64 != tt as int % 64);
                lemma_bit_clear(w0, sh, (t % 64) as u64);
            } else {
                assert(words@[t / 64] == old(words)@[t / 64]);
            }
        }
        lemma_bit_clear(w0, sh, sh);
    }
}

/// Returns every prime up to `limit`, inclusive, in increasing order.
pub fn primes(limit: u64) -> (r: Vec<u64>)
    requires
        limit < usize::MAX as u64,
    ensures
        ints_of(r@) == primes_below(limit as int + 1),
{
    let mut r: Vec<u64> = Vec::new();
    if limit < 2 {
        proof {
            assert(ints_of(r@) =~= primes_below(limit as int + 1));
        }
        return r;
    }
    if limit == 2 {
        r.push(2);
        proof {
            assert(is_prime(2));
            assert(primes_below(2) =~= Seq::<int>::empty());
            assert(primes_below(3) == primes_below(2).push(2));
            assert(ints_of(r@) =~= primes_below(3));
        }
        return r;
    }
    let lu: usize = limit as usize;
    let vec_size: usize = ((lu - 1) / 128) + 1;
    let ghost gvs: int = vec_size as int;
    let ghost nbits: int = (limit as int - 1) / 2;
    proof {
        lemma_fundamental_div_mod(limit as int - 1, 128);
        lemma_fundamental_div_mod(limit as int - 1, 2);
        vstd::arithmetic::div_mod::lemma_mod_division_less_than_divisor(limit as int - 1, 128);
        vstd::arithmetic::div_mod::lemma_mod_division_less_than_divisor(limit as int - 1, 2);
        vstd::arithmetic::div_mod::lemma_div_pos_is_pos(limit as int - 1, 128);
        vstd::arithmetic::div_mod::lemma_div_pos_is_pos(limit as int - 1, 2);
        assert(nbits <= 64 * ((limit as int - 1) / 128) + 63);
        assert(nbits < 64 * gvs);
        assert(nbits >= 1);
    }
    let mut words: Vec<u64> = Vec::new();
    let mut w: usize = 0;
    while w < vec_size
        invariant
            words@.len() == w,
            w <= vec_size,
            forall|x: int| 0 <= x < w ==> words@[x] == u64::MAX,
        decreases vec_size - w,
    {
        words.push(u64::MAX);
        w = w + 1;
    }
    proof {
        assert forall|t: int| 0 <= t < nbits implies #[trigger] bit_of(words@, t) == bit_expected(
            t,
            3,
            3,
            1,
        ) by {
            lemma_multiply_divide_lt(t, 64, gvs);
            vstd::arithmetic::div_mod::lemma_mod_division_less_than_divisor(t, 64);
            vstd::arithmetic::div_mod::lemma_div_pos_is_pos(t, 64);
            assert(words@[t / 64] == u64::MAX);
            lemma_bit_all_ones((t % 64) as u64);
            assert((2 * t + 3) % 2 == 1) by (nonlinear_arith);
            if has_proper_divisor_below(2 * t + 3, 3) {
                let d: int = choose|d: int|
                    2 <= d < 3 && #[trigger] ((2 * t + 3) % d) == 0 && d != 2 * t + 3;
                lemma_divides_transitive(2, 2, 2 * t + 3);
                assert(false);
            }
        }
    }
    let half: u64 = limit / 2;
    let ghost gh: int = half as int;
    proof {
        lemma_fundamental_div_mod(limit as int, 2);
        vstd::arithmetic::div_mod::lemma_mod_division_less_than_divisor(limit as int, 2);
        assert(2 * gh <= limit && limit <= 2 * gh + 1);
        assert(gh <= nbits + 1);
    }
    let mut i: u64 = 0;
    while i < half
        invariant
            words@.len() == gvs,
            nbits == (limit as int - 1) / 2,
            nbits < 64 * gvs,
            1 <= nbits,
            gh == half as int,
            2 * gh <= limit && limit <= 2 * gh + 1,
            gh <= nbits + 1,
            3 <= limit < usize::MAX as u64,
            0 <= i <= half,
            bits_ok(words@, nbits, 2 * i + 3, 3, 1),
        decreases half - i,
    {
        let ghost b: int = 2 * i + 3;
        proof {
            assert((2 * i + 3int) % 2 == 1) by (nonlinear_arith);
            assert((2 * i + 4int) % 2 == 0) by (nonlinear_arith);
            lemma_multiply_divide_lt(i as int, 64, gvs);
            vstd::arithmetic::div_mod::lemma_mod_division_less_than_divisor(i as int, 64);
            vstd::arithmetic::div_mod::lemma_div_pos_is_pos(i as int, 64);
        }
        let wi: usize = (i / 64) as usize;
        let sh: u64 = i % 64;
        let prime_test: u64 = (words[wi] >> sh) & 1;
        let value: u64 = 2 * i + 3;
        let ghost gv: int = value as int;
        let third: u64 = limit / 3;
        proof {
            lemma_fundamental_div_mod(limit as int, 3);
            vstd::arithmetic::div_mod::lemma_mod_division_less_than_divisor(limit as int, 3);
        }
        if prime_test != 0 && value <= third {
            proof {
                assert(3 * gv <= limit) by (nonlinear_arith)
                    requires
                        gv <= third as int,
                        limit as int == 3 * (third as int) + (limit as int % 3),
                        limit as int % 3 >= 0,
                ;
                assert(2 * (i as int) <= limit as int - 3);
                lemma_div_is_ordered(2 * (i as int), limit as int - 3, 2);
                vstd::arithmetic::div_mod::lemma_div_multiples_vanish(i as int, 2);
                lemma_div_plus_one(limit as int - 3, 2);
                assert(i < nbits);
                lemma_bit01(words@[i as int / 64], (i as int % 64) as u64);
                assert(bit_of(words@, i as int));
                assert(!has_proper_divisor_below(b, b));
                assert(b % b == 0) by (nonlinear_arith)
                    requires
                        b >= 2,
                ;
                assert((3 * gv) % gv == 0) by (nonlinear_arith)
                    requires
                        gv >= 3,
                ;
                assert((3 * gv) % 2 == 1) by (nonlinear_arith)
                    requires
                        gv % 2 == 1,
                ;
                assert forall|t: int| 0 <= t < nbits implies #[trigger] bit_of(words@, t)
                    == bit_expected(t, b, b, gv) by {
                    assert(bit_of(words@, t) == bit_expected(t, b, 3, 1));
                    if (2 * t + 3) % gv == 0 && 2 * t + 3 >= 3 * gv && 2 * t + 3 <= gv {
                        assert(false);
                    }
                }
            }
            let mut m: u64 = value * 3;
            let tt0: u64 = (m - 3) / 2;
            proof {
                lemma_fundamental_div_mod(m as int, 2);
                lemma_mod_multiples_basic(m as int / 2 - 1, 2);
                assert(m as int - 3 == (m as int / 2 - 1) * 2);
                assert((m as int - 3) % 2 == 0);
                lemma_fundamental_div_mod(m as int - 3, 2);
                assert(m as int - 3 == 2 * (tt0 as int));
                assert(2 * (tt0 as int) + 3 == m);
                lemma_div_is_ordered(m as int - 3, limit as int - 3, 2);
                lemma_div_plus_one(limit as int - 3, 2);
                assert(tt0 as int <= nbits - 1);
                lemma_multiply_divide_lt(tt0 as int, 64, gvs);
            }
            clear_bit(&mut words, tt0);
            proof {
                assert forall|t: int| 0 <= t < nbits implies #[trigger] bit_of(words@, t)
                    == bit_expected(t, b, b, m as int) by {
                    if t == tt0 as int {
                        assert(2 * t + 3 == m);
                        assert(!bit_of(words@, t));
                    } else {
                        assert(bit_of(words@, t) == bit_expected(t, b, b, gv));
                        let u: int = 2 * t + 3;
                        if u % gv == 0 && u >= 3 * gv && u <= m {
                            assert(u != m);
                            if u < m {
                                lemma_multiples_apart(u, m as int, gv);
                                assert(m - u >= gv);
                                assert(u <= gv * 3 - gv) by (nonlinear_arith)
                                    requires
                                        u <= m - gv,
                                        m == 3 * gv,
                                ;
                                assert(u < 3 * gv) by (nonlinear_arith)
                                    requires
                                        u <= gv * 3 - gv,
                                        gv >= 3,
                                ;
                                assert(false);
                            }
                            assert(false);
                        }
                    }
                }
            }
            while limit - m >= 2 * value
                invariant
                    words@.len() == gvs,
                    nbits == (limit as int - 1) / 2,
                    nbits < 64 * gvs,
                    1 <= nbits,
                    3 <= limit < usize::MAX as u64,
                    gv == value as int,
                    b == gv,
                    3 <= gv,
                    gv % 2 == 1,
                    gv % gv == 0,
                    m % value == 0,
                    m % 2 == 1,
                    3 * gv <= m <= limit,
                    bits_ok(words@, nbits, b, b, m as int),
                decreases limit - m,
            {
                let ghost m0: int = m as int;
                m = m + 2 * value;
                let tt: u64 = (m - 3) / 2;
                proof {
                    lemma_mod_add_multiple(m0, 2, gv);
                    lemma_mod_add_multiple(m0, gv, 2);
                    assert(m % 2 == 1 && (m as int) % gv == 0);
                    lemma_fundamental_div_mod(m as int, 2);
                    lemma_mod_multiples_basic(m as int / 2 - 1, 2);
                    assert(m as int - 3 == (m as int / 2 - 1) * 2);
                    assert((m as int - 3) % 2 == 0);
                    lemma_fundamental_div_mod(m as int - 3, 2);
                    assert(m as int - 3 == 2 * (tt as int));
                    assert(2 * (tt as int) + 3 == m);
                    lemma_div_is_ordered(m as int - 3, limit as int - 3, 2);
                    lemma_div_plus_one(limit as int - 3, 2);
                    assert(tt as int <= nbits - 1);
                    lemma_multiply_divide_lt(tt as int, 64, gvs);
                }
                clear_bit(&mut words, tt);
                proof {
                    assert forall|t: int| 0 <= t < nbits implies #[trigger] bit_of(words@, t)
                        == bit_expected(t, b, b, m as int) by {
                        if t == tt as int {
                            assert(2 * t + 3 == m);
                            assert(!bit_of(words@, t));
                        } else {
                            assert(bit_of(words@, t) == bit_expected(t, b, b, m0));
                            let u: int = 2 * t + 3;
                            if u % gv == 0 && u >= 3 * gv && m0 < u <= m {
                                assert(u != m);
                                lemma_multiples_apart(m0, u, gv);
                                if u - m0 < 2 * gv {
                                    if gv < u - m0 {
                                        lemma_multiples_apart(gv, u - m0, gv);
                                    } else if u - m0 < gv {
                                        lemma_multiples_apart(u - m0, gv, gv);
                                    }
                                    assert(u - m0 == gv);
                                    assert((u - m0) % 2 == 0) by (nonlinear_arith)
                                        requires
                                            u % 2 == 1,
                                            m0 % 2 == 1,
                                            u > m0 >= 0,
                                    ;
                                    assert(false);
                                }
                                assert(false);
                            }
                        }
                    }
                }
            }
            proof {
                assert forall|t: int| 0 <= t < nbits implies #[trigger] bit_of(words@, t)
                    == bit_expected(t, b + 2, 3, 1) by {
                    assert(bit_of(words@, t) == bit_expected(t, b, b, m as int));
                    let u: int = 2 * t + 3;
                    assert((2 * t + 3) % 2 == 1) by (nonlinear_arith);
                    lemma_fundamental_div_mod(limit as int - 1, 2);
                    vstd::arithmetic::div_mod::lemma_mod_division_less_than_divisor(
                        limit as int - 1,
                        2,
                    );
                    assert(u <= limit);
                    if u % gv == 0 && u >= 3 * gv && u > m {
                        lemma_multiples_apart(m as int, u, gv);
                        if u - m < 2 * gv {
                            if gv < u - m {
                                lemma_multiples_apart(gv, u - m, gv);
                            } else if u - m < gv {
                                lemma_multiples_apart(u - m, gv, gv);
                            }
                            assert(u - m == gv);
                            assert((u - m) % 2 == 0) by (nonlinear_arith)
                                requires
                                    u % 2 == 1,
                                    m as int % 2 == 1,
                                    u > m as int >= 0,
                            ;
                            assert(false);
                        }
                        assert(u >= m + 2 * gv > limit);
                        assert(false);
                    }
                    if has_proper_divisor_below(u, b + 2) {
                        let d: int = choose|d: int| 2 <= d < b + 2 && #[trigger] (u % d) == 0 && d != u;
                        if d == b + 1 {
                            lemma_divides_transitive(2, b + 1, u);
                            assert(false);
                        }
                        if d == b {
                            if u < b {
                                assert(u % b == u) by (nonlinear_arith)
                                    requires
                                        0 <= u < b,
                                ;
                                assert(false);
                            } else if b < u && u < 3 * b {
                                lemma_multiples_apart(b, u, b);
                                if b < u - b {
                                    lemma_multiples_apart(b, u - b, b);
                                } else if u - b < b {
                                    lemma_multiples_apart(u - b, b, b);
                                }
                                assert(u == 2 * b);
                                assert(u % 2 == 0) by (nonlinear_arith)
                                    requires
                                        u == 2 * b,
                                ;
                                assert(false);
                            }
                            assert(u % b == 0 && u >= 3 * b);
                            assert(u <= m);
                        } else {
                            assert(2 <= d < b && u % d == 0 && d != u);
                            assert(has_proper_divisor_below(u, b));
                        }
                    }
                    if has_proper_divisor_below(u, b) {
                        let d: int = choose|d: int| 2 <= d < b && #[trigger] (u % d) == 0 && d != u;
                        assert(2 <= d < b + 2 && u % d == 0 && d != u);
                        assert(has_proper_divisor_below(u, b + 2));
                    }
                    if u % gv == 0 && u >= 3 * gv && u <= m {
                        assert(u != b);
                        assert(2 <= b < b + 2 && u % b == 0 && b != u);
                        assert(has_proper_divisor_below(u, b + 2));
                    }
                }
            }
        } else {
            proof {
                assert(b % b == 0) by (nonlinear_arith)
                    requires
                        b >= 2,
                ;
                assert forall|t: int| 0 <= t < nbits implies #[trigger] bit_of(words@, t)
                    == bit_expected(t, b + 2, 3, 1) by {
                    assert(bit_of(words@, t) == bit_expected(t, b, 3, 1));
                    let u: int = 2 * t + 3;
                    assert((2 * t + 3) % 2 == 1) by (nonlinear_arith);
                    lemma_fundamental_div_mod(limit as int - 1, 2);
                    vstd::arithmetic::div_mod::lemma_mod_division_less_than_divisor(
                        limit as int - 1,
                        2,
                    );
                    assert(u <= limit);
                    if has_proper_divisor_below(u, b + 2) {
                        let d: int = choose|d: int| 2 <= d < b + 2 && #[trigger] (u % d) == 0 && d != u;
                        if d == b + 1 {
                            lemma_divides_transitive(2, b + 1, u);
                            assert(false);
                        }
                        if d == b {
                            if u < b {
                                assert(u % b == u) by (nonlinear_arith)
                                    requires
                                        0 <= u < b,
                                ;
                                assert(false);
                            } else if b < u && u < 3 * b {
                                lemma_multiples_apart(b, u, b);
                                if b < u - b {
                                    lemma_multiples_apart(b, u - b, b);
                                } else if u - b < b {
                                    lemma_multiples_apart(u - b, b, b);
                                }
                                assert(u == 2 * b);
                                assert(u % 2 == 0) by (nonlinear_arith)
                                    requires
                                        u == 2 * b,
                                ;
                                assert(false);
                            }
                            // u == b, or u is a multiple of b at least 3b
                            if u != b {
                                assert(u >= 3 * b);
                                if value > third {
                                    assert(3 * gv > limit) by (nonlinear_arith)
                                        requires
                                            gv >= third as int + 1,
                                            limit as int == 3 * (third as int) + (limit as int
                                                % 3),
                                            limit as int % 3 < 3,
                                    ;
                                    assert(u >= 3 * b > limit);
                                    assert(false);
                                } else {
                                    // the bit for b is clear: b itself is composite
                                    assert(3 * gv <= limit) by (nonlinear_arith)
                                        requires
                                            gv <= third as int,
                                            limit as int == 3 * (third as int) + (limit as int
                                                % 3),
                                            limit as int % 3 >= 0,
                                    ;
                                    assert(2 * (i as int) <= limit as int - 3);
                                    lemma_div_is_ordered(2 * (i as int), limit as int - 3, 2);
                                    vstd::arithmetic::div_mod::lemma_div_multiples_vanish(
                                        i as int,
                                        2,
                                    );
                                    lemma_div_plus_one(limit as int - 3, 2);
                                    assert(i < nbits);
                                    assert(prime_test == 0);
                                    assert((words@[i as int / 64] >> ((i as int % 64) as u64)) & 1
                                        != 1);
                                    assert(!bit_of(words@, i as int));
                                    assert(has_proper_divisor_below(b, b));
                                    let d0: int = choose|d: int|
                                        2 <= d < b && #[trigger] (b % d) == 0 && d != b;
                                    lemma_divides_transitive(d0, b, u);
                                    assert(2 <= d0 < b && u % d0 == 0 && d0 != u);
                                    assert(has_proper_divisor_below(u, b));
                                }
                            }
                        } else {
                            assert(2 <= d < b && u % d == 0 && d != u);
                            assert(has_proper_divisor_below(u, b));
                        }
                    }
                    if has_proper_divisor_below(u, b) {
                        let d: int = choose|d: int| 2 <= d < b && #[trigger] (u % d) == 0 && d != u;
                        assert(2 <= d < b + 2 && u % d == 0 && d != u);
                        assert(has_proper_divisor_below(u, b + 2));
                    }
                }
            }
        }
        i = i + 1;
    }
    let ghost bfin: int = 2 * gh + 3;
    r.push(2);
    proof {
        assert(is_prime(2));
        assert(primes_below(2) =~= Seq::<int>::empty());
        assert(primes_below(3) == primes_below(2).push(2));
        assert(ints_of(r@) =~= primes_below(3));
    }
    let tmax: u64 = (limit - 3) / 2;
    proof {
        lemma_fundamental_div_mod(limit as int - 3, 2);
        vstd::arithmetic::div_mod::lemma_mod_division_less_than_divisor(limit as int - 3, 2);
        lemma_div_plus_one(limit as int - 3, 2);
        assert(tmax as int == nbits - 1);
    }
    let mut t: u64 = 0;
    while t <= tmax
        invariant
            words@.len() == gvs,
            nbits == (limit as int - 1) / 2,
            nbits < 64 * gvs,
            1 <= nbits,
            tmax as int == nbits - 1,
            2 * (tmax as int) + 3 <= limit <= 2 * (tmax as int) + 4,
            3 <= limit < usize::MAX as u64,
            bfin == 2 * gh + 3,
            2 * gh <= limit && limit <= 2 * gh + 1,
            bits_ok(words@, nbits, bfin, 3, 1),
            0 <= t <= tmax + 1,
            ints_of(r@) == primes_below(2 * t + 3),
        decreases tmax + 1 - t,
    {
        proof {
            lemma_multiply_divide_lt(t as int, 64, gvs);
            vstd::arithmetic::div_mod::lemma_mod_division_less_than_divisor(t as int, 64);
            vstd::arithmetic::div_mod::lemma_div_pos_is_pos(t as int, 64);
        }
        let wi: usize = (t / 64) as usize;
        let sh: u64 = t % 64;
        let bit: u64 = (words[wi] >> sh) & 1;
        let u: u64 = 2 * t + 3;
        proof {
            assert(bit_of(words@, t as int) == bit_expected(t as int, bfin, 3, 1));
            lemma_proper_divisor_composite(u as int, bfin);
            assert((2 * t + 4int) % 2 == 0) by (nonlinear_arith);
            lemma_even_not_prime(2 * t + 4);
            assert(primes_below(2 * t + 4) == if is_prime(2 * t + 3) {
                primes_below(2 * t + 3).push(2 * t + 3)
            } else {
                primes_below(2 * t + 3)
            });
        }
        if bit == 1 {
            proof {
                lemma_ints_of_push(r@, u);
            }
            r.push(u);
        }
        t = t + 1;
    }
    proof {
        assert((2 * (tmax as int) + 4) % 2 == 0) by (nonlinear_arith);
        lemma_even_not_prime(2 * (tmax as int) + 4);
        assert(primes_below(2 * (tmax as int) + 5) == primes_below(2 * (tmax as int) + 4));
        assert(ints_of(r@) == primes_below(limit as int + 1));
    }
    r
}

} // verus!
