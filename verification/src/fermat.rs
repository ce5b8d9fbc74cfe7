//! Fermat's little theorem, proved from Pascal's rule: for a prime `p` and
//! `m` not divisible by `p`, `m^(p-1) == 1 (mod p)`. The development runs
//! through binomial coefficients, the divisibility of the inner row of
//! Pascal's triangle by `p`, the binomial theorem, and the congruence
//! `(x+1)^p == x^p + 1 (mod p)`. On top of it stands the completeness of
//! the Miller-Rabin round: a prime passes the round for every witness base
//! it does not divide, so the multi-base test never rejects a prime larger
//! than its base range.

use vstd::prelude::*;
use vstd::arithmetic::div_mod::{
    lemma_add_mod_noop, lemma_fundamental_div_mod, lemma_mod_equivalence, lemma_mod_multiples_basic,
    lemma_mul_mod_noop_left, lemma_small_mod,
};
use vstd::arithmetic::power::pow;
use vstd::arithmetic::power2::pow2;

use crate::math::{
    bezout_relation, lemma_bezout, lemma_gcd_divides, odd_part, passes_prime_test,
    spec_gcd, spec_miller_passes, two_adic,
};

verus! {

/// Mathematical primality: at least two, with no divisor strictly between
/// one and itself. This is the ground truth that the probabilistic
/// `passes_prime_test` approximates.
pub open spec fn spec_prime(p: int) -> bool {
    p >= 2 && forall|j: int| 1 < j < p ==> #[trigger] (p % j) != 0
}

/// The binomial coefficient, by Pascal's rule.
pub open spec fn binom(n: nat, k: nat) -> nat
    decreases n,
{
    if k == 0 {
        1
    } else if k > n {
        0
    } else {
        binom((n - 1) as nat, (k - 1) as nat) + binom((n - 1) as nat, k)
    }
}

/// The edge entries of Pascal's triangle are one.
proof fn lemma_binom_edges(n: nat)
    ensures
        binom(n, 0) == 1,
        binom(n, n) == 1,
    decreases n,
{
    if n > 0 {
        lemma_binom_edges((n - 1) as nat);
        assert(binom((n - 1) as nat, n) == 0);
    }
}

/// The entry next to the edge is the row number.
proof fn lemma_binom_one(n: nat)
    requires
        n >= 1,
    ensures
        binom(n, 1) == n,
    decreases n,
{
    if n == 1 {
        assert(binom(0, 0) == 1);
        assert(binom(0, 1) == 0);
    } else {
        lemma_binom_one((n - 1) as nat);
        lemma_binom_edges((n - 1) as nat);
    }
}

/// The absorption identity `k * binom(n, k) == n * binom(n-1, k-1)`.
proof fn lemma_binom_absorb(n: nat, k: nat)
    requires
        1 <= k <= n,
    ensures
        k * binom(n, k) == n * binom((n - 1) as nat, (k - 1) as nat),
    decreases n,
{
    let n1: nat = (n - 1) as nat;
    let k1: nat = (k - 1) as nat;
    if k == 1 {
        lemma_binom_one(n);
        lemma_binom_edges(n1);
    } else if k == n {
        lemma_binom_edges(n);
        lemma_binom_edges(n1);
        assert(binom(n, (k + 1) as nat) == 0);
        assert(binom(n1, k) == 0);
        assert(binom(n, k) == binom(n1, k1) + binom(n1, k));
    } else {
        // 2 <= k < n, so n >= 3
        let n2: nat = (n - 2) as nat;
        let k2: nat = (k - 2) as nat;
        lemma_binom_absorb(n1, k1);
        lemma_binom_absorb(n1, k);
        // k * binom(n1, k1) == (k-1) * binom(n1, k1) + binom(n1, k1)
        assert(k * binom(n1, k1) == k1 * binom(n1, k1) + binom(n1, k1)) by (nonlinear_arith)
            requires
                k == k1 + 1,
        ;
        assert(k * binom(n, k) == k * binom(n1, k1) + k * binom(n1, k)) by (nonlinear_arith)
            requires
                binom(n, k) == binom(n1, k1) + binom(n1, k),
        ;
        // from the two inner absorptions
        assert(k1 * binom(n1, k1) == n1 * binom(n2, k2));
        assert(k * binom(n1, k) == n1 * binom(n2, k1));
        assert(binom(n1, k1) == binom(n2, k2) + binom(n2, k1));
        assert(n1 * binom(n2, k2) + n1 * binom(n2, k1) == n1 * binom(n1, k1)) by (nonlinear_arith)
            requires
                binom(n1, k1) == binom(n2, k2) + binom(n2, k1),
        ;
        assert(n1 * binom(n1, k1) + binom(n1, k1) == n * binom(n1, k1)) by (nonlinear_arith)
            requires
                n == n1 + 1,
        ;
    }
}

/// Euclid's lemma in Bezout form: a number coprime to `c` can be cancelled
/// from a product divisible by `c`.
proof fn lemma_coprime_cancel(c: int, a: int, b: int)
    requires
        c >= 1,
        a >= 0,
        spec_gcd(c, a) == 1,
        (a * b) % c == 0,
    ensures
        b % c == 0,
{
    lemma_bezout(c, a);
    let (x, y): (int, int) = choose|x: int, y: int| #[trigger] bezout_relation(c, a, x, y, 1);
    lemma_fundamental_div_mod(a * b, c);
    assert(b == c * (b * x + ((a * b) / c) * y)) by (nonlinear_arith)
        requires
            1 == c * x + a * y,
            a * b == c * ((a * b) / c),
    ;
    lemma_mod_multiples_basic(b * x + ((a * b) / c) * y, c);
    assert((b * x + ((a * b) / c) * y) * c == b) by (nonlinear_arith)
        requires
            b == c * (b * x + ((a * b) / c) * y),
    ;
}

/// A positive divisor of a prime is one or the prime itself.
proof fn lemma_prime_divisor(p: int, d: int)
    requires
        spec_prime(p),
        d >= 1,
        p % d == 0,
    ensures
        d == 1 || d == p,
{
    if d != 1 && d != p {
        if d < p {
            assert(p % d != 0);
        } else {
            // d > p: a larger divisor cannot divide a positive number
            lemma_fundamental_div_mod(p, d);
            assert(false) by (nonlinear_arith)
                requires
                    p == d * (p / d) + p % d,
                    p % d == 0,
                    d > p,
                    p >= 2,
                    0 <= p % d,
            ;
        }
    }
}

/// A prime is coprime to everything it does not divide.
proof fn lemma_prime_coprime(p: int, a: int)
    requires
        spec_prime(p),
        a >= 0,
        a % p != 0,
    ensures
        spec_gcd(p, a) == 1,
{
    let g: int = spec_gcd(p, a);
    lemma_gcd_divides(p, a);
    lemma_prime_divisor(p, g);
    if g == p {
        assert(a % p == 0);
    }
}

/// Every inner entry of row `p` of Pascal's triangle is divisible by the
/// prime `p`.
proof fn lemma_prime_divides_binom(p: int, k: nat)
    requires
        spec_prime(p),
        1 <= k <= p - 1,
    ensures
        (binom(p as nat, k) as int) % p == 0,
{
    let bk: int = binom(p as nat, k) as int;
    let bk1: int = binom((p - 1) as nat, (k - 1) as nat) as int;
    lemma_binom_absorb(p as nat, k);
    // k * binom(p, k) == p * binom(p-1, k-1) is a multiple of p
    lemma_mod_multiples_basic(bk1, p);
    assert(((k as int) * bk) % p == 0) by (nonlinear_arith)
        requires
            (k as int) * bk == p * bk1,
            (bk1 * p) % p == 0,
    ;
    lemma_small_mod(k, p as nat);
    lemma_prime_coprime(p, k as int);
    lemma_coprime_cancel(p, k as int, bk);
}

/// The tail of a row of the binomial expansion of `(x+1)^n`:
/// `binom(n,k)*x^k + binom(n,k+1)*x^(k+1) + ... + binom(n,n)*x^n`.
pub open spec fn binom_row_sum(x: int, n: nat, k: nat) -> int
    decreases n + 1 - k,
{
    if k > n {
        0
    } else {
        binom(n, k) * pow(x, k) + binom_row_sum(x, n, k + 1)
    }
}

/// Pascal's rule applied across a row tail.
proof fn lemma_row_sum_pascal(x: int, n: nat, k: nat)
    requires
        1 <= k,
        n >= 1,
    ensures
        binom_row_sum(x, n, k) == x * binom_row_sum(x, (n - 1) as nat, (k - 1) as nat)
            + binom_row_sum(x, (n - 1) as nat, k),
    decreases n + 2 - k,
{
    let n1: nat = (n - 1) as nat;
    let k1: nat = (k - 1) as nat;
    if k > n {
        assert(binom_row_sum(x, n, k) == 0);
        assert(binom_row_sum(x, n1, k1) == 0);
        assert(binom_row_sum(x, n1, k) == 0);
    } else {
        lemma_row_sum_pascal(x, n, k + 1);
        let b1: int = binom(n1, k1) as int;
        let b2: int = binom(n1, k) as int;
        let pk: int = pow(x, k);
        let pk1: int = pow(x, k1);
        let s1: int = binom_row_sum(x, n1, k);
        let s2: int = binom_row_sum(x, n1, k + 1);
        assert(binom(n, k) as int == b1 + b2);
        assert(binom_row_sum(x, n1, k1) == b1 * pk1 + s1);
        if k <= n1 {
            assert(binom_row_sum(x, n1, k) == binom(n1, k) * pow(x, k) + binom_row_sum(
                x,
                n1,
                k + 1,
            ));
            assert(s1 == b2 * pk + s2) by (nonlinear_arith)
                requires
                    s1 == (binom(n1, k) as int) * pow(x, k) + s2,
                    b2 == binom(n1, k) as int,
                    pk == pow(x, k),
            ;
        } else {
            assert(binom(n1, k) == 0);
            assert(binom_row_sum(x, n1, k) == 0);
            assert(binom_row_sum(x, n1, k + 1) == 0);
            assert(s1 == b2 * pk + s2) by (nonlinear_arith)
                requires
                    s1 == 0,
                    s2 == 0,
                    b2 == 0,
            ;
        }
        assert(pk == x * pk1) by {
            vstd::arithmetic::power::lemma_pow_adds(x, 1nat, k1);
            vstd::arithmetic::power::lemma_pow1(x);
            assert(1nat + k1 == k);
        }
        assert((b1 + b2) * pk + (x * s1 + s2) == x * (b1 * pk1 + s1) + (b2 * pk + s2))
            by (nonlinear_arith)
            requires
                pk == x * pk1,
        ;
    }
}

/// The binomial theorem: `(x+1)^n` is the full row sum.
proof fn lemma_binomial_theorem(x: int, n: nat)
    ensures
        pow(x + 1, n) == binom_row_sum(x, n, 0),
    decreases n,
{
    if n == 0 {
        vstd::arithmetic::power::lemma_pow0(x + 1);
        vstd::arithmetic::power::lemma_pow0(x);
        assert(binom_row_sum(x, 0, 1) == 0);
        assert(binom_row_sum(x, 0, 0) == binom(0, 0) * pow(x, 0) + 0);
    } else {
        let n1: nat = (n - 1) as nat;
        lemma_binomial_theorem(x, n1);
        lemma_row_sum_pascal(x, n, 1);
        lemma_binom_edges(n);
        lemma_binom_edges(n1);
        let s: int = binom_row_sum(x, n1, 0);
        vstd::arithmetic::power::lemma_pow0(x);
        assert(pow(x + 1, n) == (x + 1) * pow(x + 1, n1)) by {
            vstd::arithmetic::power::lemma_pow_adds(x + 1, 1nat, n1);
            vstd::arithmetic::power::lemma_pow1(x + 1);
            assert(1nat + n1 == n);
        }
        assert(binom_row_sum(x, n, 0) == 1 * pow(x, 0) + binom_row_sum(x, n, 1));
        assert(binom_row_sum(x, n1, 0) == 1 * pow(x, 0) + binom_row_sum(x, n1, 1));
        assert((x + 1) * s == x * s + s) by (nonlinear_arith);
    }
}

/// Past its first entry, a row-`p` tail equals its last term `x^p` modulo
/// the prime `p`: all the inner binomial coefficients vanish.
proof fn lemma_row_tail_congruent(x: int, p: int, k: nat)
    requires
        spec_prime(p),
        1 <= k <= p,
    ensures
        (binom_row_sum(x, p as nat, k) - pow(x, p as nat)) % p == 0,
    decreases p - k,
{
    if k == p {
        lemma_binom_edges(p as nat);
        assert(binom_row_sum(x, p as nat, (p + 1) as nat) == 0);
        assert(binom_row_sum(x, p as nat, p as nat) == 1 * pow(x, p as nat) + 0);
        lemma_small_mod(0nat, p as nat);
    } else {
        lemma_row_tail_congruent(x, p, k + 1);
        lemma_prime_divides_binom(p, k);
        let bk: int = binom(p as nat, k) as int;
        let pk: int = pow(x, k);
        let tail: int = binom_row_sum(x, p as nat, k + 1);
        let xp: int = pow(x, p as nat);
        lemma_mul_mod_noop_left(bk, pk, p);
        lemma_small_mod(0nat, p as nat);
        assert((bk * pk) % p == 0);
        lemma_add_mod_noop(bk * pk, tail - xp, p);
        assert((bk * pk + (tail - xp)) % p == 0);
        assert(binom_row_sum(x, p as nat, k) - xp == bk * pk + (tail - xp));
    }
}

/// The freshman's dream: `(x+1)^p == x^p + 1 (mod p)` for a prime `p`.
proof fn lemma_freshman(x: int, p: int)
    requires
        spec_prime(p),
    ensures
        (pow(x + 1, p as nat) - (pow(x, p as nat) + 1)) % p == 0,
{
    lemma_binomial_theorem(x, p as nat);
    lemma_row_tail_congruent(x, p, 1);
    lemma_binom_edges(p as nat);
    vstd::arithmetic::power::lemma_pow0(x);
    assert(binom_row_sum(x, p as nat, 0) == 1 * pow(x, 0) + binom_row_sum(x, p as nat, 1));
}

/// `m^p == m (mod p)` for a prime `p` and `m >= 0`, by induction on `m`.
proof fn lemma_power_congruent(m: int, p: int)
    requires
        spec_prime(p),
        m >= 0,
    ensures
        (pow(m, p as nat) - m) % p == 0,
    decreases m,
{
    if m == 0 {
        vstd::arithmetic::power::lemma0_pow(p as nat);
        lemma_small_mod(0nat, p as nat);
    } else {
        lemma_power_congruent(m - 1, p);
        lemma_freshman(m - 1, p);
        let a: int = pow(m, p as nat) - (pow(m - 1, p as nat) + 1);
        let b: int = pow(m - 1, p as nat) - (m - 1);
        assert(a % p == 0);
        lemma_add_mod_noop(a, b, p);
        lemma_small_mod(0nat, p as nat);
        assert(pow(m, p as nat) - m == a + b);
    }
}

/// Fermat's little theorem: for a prime `p` and `m >= 0` not divisible by
/// `p`, `m^(p-1) == 1 (mod p)`.
pub proof fn lemma_fermat_little(m: int, p: int)
    requires
        spec_prime(p),
        m >= 0,
        m % p != 0,
    ensures
        pow(m, (p - 1) as nat) % p == 1,
{
    lemma_power_congruent(m, p);
    let t: int = pow(m, (p - 1) as nat);
    assert(pow(m, p as nat) == m * t) by {
        vstd::arithmetic::power::lemma_pow_adds(m, 1nat, (p - 1) as nat);
        vstd::arithmetic::power::lemma_pow1(m);
        assert(1nat + ((p - 1) as nat) == p as nat);
    }
    assert((m * (t - 1)) % p == 0) by (nonlinear_arith)
        requires
            (m * t - m) % p == 0,
    ;
    lemma_prime_coprime(p, m);
    lemma_coprime_cancel(p, m, t - 1);
    lemma_mod_equivalence(t, 1, p);
    lemma_small_mod(1nat, p as nat);
}

/// Two distinct primes are coprime.
pub proof fn lemma_distinct_primes_coprime(p: int, q: int)
    requires
        spec_prime(p),
        spec_prime(q),
        p != q,
    ensures
        spec_gcd(p, q) == 1,
{
    let g: int = spec_gcd(p, q);
    lemma_gcd_divides(p, q);
    lemma_prime_divisor(p, g);
    if g == p {
        lemma_prime_divisor(q, p);
    }
}

/// Every positive integer splits as its odd part times the power of two
/// given by its 2-adic valuation.
proof fn lemma_odd_part_decomposition(n: int)
    requires
        n >= 1,
    ensures
        odd_part(n) >= 1,
        odd_part(n) % 2 == 1,
        n == vstd::arithmetic::power2::pow2(two_adic(n)) * odd_part(n),
    decreases n,
{
    if n % 2 == 1 {
        assert(vstd::arithmetic::power2::pow2(0) == 1) by {
            vstd::arithmetic::power2::lemma2_to64();
        }
        assert(n == pow2(two_adic(n)) * odd_part(n)) by (nonlinear_arith)
            requires
                pow2(two_adic(n)) == 1,
                odd_part(n) == n,
        ;
    } else {
        lemma_odd_part_decomposition(n / 2);
        let t: nat = two_adic(n / 2);
        let o: int = odd_part(n / 2);
        assert(two_adic(n) == t + 1);
        assert(odd_part(n) == o);
        lemma_fundamental_div_mod(n, 2);
        assert(vstd::arithmetic::power2::pow2(t + 1) == 2 * vstd::arithmetic::power2::pow2(t)) by {
            vstd::arithmetic::power2::lemma_pow2_unfold(t + 1);
        }
        assert(n == vstd::arithmetic::power2::pow2(t + 1) * o) by (nonlinear_arith)
            requires
                n == 2 * (n / 2),
                n / 2 == vstd::arithmetic::power2::pow2(t) * o,
                vstd::arithmetic::power2::pow2(t + 1) == 2 * vstd::arithmetic::power2::pow2(t),
        ;
        assert(n == pow2(two_adic(n)) * odd_part(n)) by (nonlinear_arith)
            requires
                n == pow2(t + 1) * o,
                two_adic(n) == t + 1,
                odd_part(n) == o,
        ;
    }
}

/// Modulo a prime, one has no square root but itself and its negation: a
/// residue squaring to one is one or `p - 1`.
proof fn lemma_sqrt_one_mod_prime(p: int, x: int)
    requires
        spec_prime(p),
        0 <= x < p,
        x != 1,
        (x * x) % p == 1,
    ensures
        x == p - 1,
{
    if x == 0 {
        lemma_small_mod(0nat, p as nat);
    } else {
        // p divides x^2 - 1 == (x - 1) * (x + 1), and is coprime to x - 1
        lemma_small_mod(1nat, p as nat);
        lemma_mod_equivalence(x * x, 1, p);
        assert((x - 1) * (x + 1) == x * x - 1) by (nonlinear_arith);
        lemma_small_mod((x - 1) as nat, p as nat);
        lemma_prime_coprime(p, x - 1);
        lemma_coprime_cancel(p, x - 1, x + 1);
        if x + 1 < p {
            lemma_small_mod((x + 1) as nat, p as nat);
        }
    }
}

/// Climbing down the squaring chain of a Miller-Rabin round: if
/// `base^(2^i * d)` is one modulo the prime `p` but `base^d` is not, some
/// earlier power `base^(2^c * d)` hits `p - 1`.
proof fn lemma_miller_chain(p: int, base: int, d: int, i: nat)
    requires
        spec_prime(p),
        p > 2,
        d >= 1,
        base >= 0,
        i >= 1,
        pow(base, (pow2(i) * d) as nat) % p == 1,
        pow(base, d as nat) % p != 1,
    ensures
        exists|c: nat|
            #![trigger pow2(c)]
            c < i && pow(base, (pow2(c) * d) as nat) % p == p - 1,
    decreases i,
{
    let i1: nat = (i - 1) as nat;
    let e1: int = pow2(i1) * d;
    assert(pow2(i1) >= 1) by {
        vstd::arithmetic::power2::lemma_pow2_pos(i1);
    }
    assert(e1 >= 1) by (nonlinear_arith)
        requires
            e1 == pow2(i1) * d,
            pow2(i1) >= 1,
            d >= 1,
    ;
    let x: int = pow(base, e1 as nat) % p;
    // one squaring step: base^(2^i * d) is (base^(2^(i-1) * d))^2
    assert(pow2(i) == 2 * pow2(i1)) by {
        vstd::arithmetic::power2::lemma_pow2_unfold(i);
    }
    assert(pow2(i) * d == e1 + e1) by (nonlinear_arith)
        requires
            pow2(i) == 2 * pow2(i1),
            e1 == pow2(i1) * d,
    ;
    vstd::arithmetic::power::lemma_pow_adds(base, e1 as nat, e1 as nat);
    vstd::arithmetic::div_mod::lemma_mul_mod_noop(pow(base, e1 as nat), pow(base, e1 as nat), p);
    assert((x * x) % p == 1);
    if x == 1 {
        // the chain is still one a step earlier; keep climbing down
        if i1 == 0 {
            assert(pow2(0) == 1) by {
                vstd::arithmetic::power2::lemma2_to64();
            }
            assert(false);
        }
        lemma_miller_chain(p, base, d, i1);
    } else {
        lemma_sqrt_one_mod_prime(p, x);
        assert(i1 < i && pow(base, (pow2(i1) * d) as nat) % p == p - 1);
    }
}

/// Completeness of the Miller-Rabin round: a prime passes it for every
/// witness base that the prime does not divide. (A base the prime divides
/// fails the round vacuously, which is why the multi-base decision can
/// reject a prime no larger than its base range.)
pub proof fn lemma_prime_passes_miller(p: int, base: int)
    requires
        spec_prime(p),
        p > 2,
        base >= 0,
        base % p != 0,
    ensures
        spec_miller_passes(p, base),
{
    // a prime above two is odd
    assert(p % 2 != 0);
    let d: int = odd_part(p - 1);
    let s: nat = two_adic(p - 1);
    lemma_odd_part_decomposition(p - 1);
    assert(s >= 1);
    lemma_fermat_little(base, p);
    assert(pow2(s) * d == p - 1);
    if pow(base, d as nat) % p != 1 {
        lemma_miller_chain(p, base, d, s);
    }
}

/// Completeness of the multi-base decision: a prime at least as large as
/// the base range passes the whole test.
pub proof fn lemma_prime_passes_test(p: int, max_bases: u64)
    requires
        spec_prime(p),
        max_bases <= p,
    ensures
        passes_prime_test(p, max_bases),
{
    if p == 2 {
    } else {
        assert(p % 2 != 0);
        assert forall|bb: int| 2 <= bb < max_bases implies #[trigger] spec_miller_passes(
            p,
            bb,
        ) by {
            lemma_small_mod(bb as nat, p as nat);
            lemma_prime_passes_miller(p, bb);
        }
    }
}

} // verus!
