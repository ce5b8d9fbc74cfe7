//! Number-theory primitives on arbitrary-precision integers: greatest common
//! divisor, extended-Euclid modular inverse, power-of-two factoring, the
//! Miller-Rabin witness test, a multi-base primality decision, and a random
//! prime generator.

use vstd::prelude::*;
use vstd::arithmetic::div_mod::{
    lemma_fundamental_div_mod, lemma_mod_multiples_vanish, lemma_small_mod,
};
use vstd::arithmetic::power::pow;
use vstd::arithmetic::power2::{lemma_pow2_pos, lemma_pow2_strictly_increases, pow2};

use num_bigint::BigInt;

use crate::bignum::{
    big_add, big_clone, big_div, big_eq, big_from_u64, big_lt, big_modpow, big_mul, big_neg,
    big_random_bits, big_rem, big_sub, big_value, fresh_rng,
};

verus! {

/// An error surfaced by a number-theory primitive.
#[derive(Debug, PartialEq, Eq, Clone, Copy)]
pub enum MathError {
    /// The modular inverse was asked of a pair that is not coprime.
    NotInvertible,
    /// A rejection-sampling search gave up after its iteration cap.
    RetriesExhausted,
}

/// How many candidates a rejection-sampling search will try before giving up.
pub const MAX_SAMPLING_ATTEMPTS: u64 = 100000;

/// The greatest common divisor of two non-negative integers, by Euclid's
/// recursion. `spec_gcd(a, 0) == a`, and in particular `spec_gcd(0, 0) == 0`.
pub open spec fn spec_gcd(a: int, b: int) -> int
    recommends
        a >= 0,
        b >= 0,
    decreases b,
{
    if b <= 0 {
        a
    } else {
        spec_gcd(b, a % b)
    }
}

/// The odd factor that remains after all powers of two are divided out.
pub open spec fn odd_part(n: int) -> int
    recommends
        n >= 1,
    decreases n,
{
    if n <= 0 {
        0
    } else if n % 2 == 1 {
        n
    } else {
        odd_part(n / 2)
    }
}

/// The exponent of the largest power of two dividing `n`.
pub open spec fn two_adic(n: int) -> nat
    recommends
        n >= 1,
    decreases n,
{
    if n <= 0 || n % 2 == 1 {
        0
    } else {
        1 + two_adic(n / 2)
    }
}

/// What a single Miller-Rabin round reports for candidate `n` and witness
/// `base`: with `n - 1 == 2^s * d` and `d` odd, the base passes when
/// `base^d == 1 (mod n)` or some square `base^(2^c * d)` with `c < s` hits
/// `n - 1`. A base that fails proves `n` composite; a base that passes only
/// suggests primality.
pub open spec fn spec_miller_passes(n: int, base: int) -> bool
    recommends
        n > 2,
        n % 2 == 1,
{
    let d: int = odd_part(n - 1);
    let s: nat = two_adic(n - 1);
    pow(base, d as nat) % n == 1 || (exists|c: nat|
        #![trigger pow2(c)]
        c < s && pow(base, (pow2(c) * d) as nat) % n == n - 1)
}

/// What the multi-base primality decision reports: small cases are decided
/// directly, and an odd candidate above two must pass the Miller-Rabin round
/// for every witness base from `2` up to `max_bases - 1`. This is the
/// probabilistic verdict of the test, not mathematical primality.
pub open spec fn passes_prime_test(p: int, max_bases: u64) -> bool {
    if p < 2 {
        false
    } else if p == 2 {
        true
    } else if p % 2 == 0 {
        false
    } else {
        forall|bb: int| 2 <= bb < max_bases ==> #[trigger] spec_miller_passes(p, bb)
    }
}

/// The greatest common divisor is symmetric on non-negative arguments, and an
/// argument of zero leaves the other unchanged.
pub proof fn lemma_gcd_symmetric(a: int, b: int)
    requires
        a >= 0,
        b >= 0,
    ensures
        spec_gcd(a, b) == spec_gcd(b, a),
        spec_gcd(a, 0) == a,
    decreases a + b,
{
    if a == b {
    } else if b == 0 {
        // spec_gcd(0, a) unfolds to spec_gcd(a, 0 % a) == spec_gcd(a, 0) for a > 0
    } else if a == 0 {
    } else if a < b {
        // a % b == a, so spec_gcd(a, b) == spec_gcd(b, a % b) == spec_gcd(b, a)
        lemma_small_mod(a as nat, b as nat);
    } else {
        lemma_small_mod(b as nat, a as nat);
    }
}

/// A multiple of two multiples of `c` is again a multiple of `c`.
proof fn lemma_divisor_of_combination(c: int, x: int, y: int, k: int)
    requires
        c > 0,
        x % c == 0,
        y % c == 0,
    ensures
        (x + k * y) % c == 0,
{
    lemma_fundamental_div_mod(x, c);
    lemma_fundamental_div_mod(y, c);
    assert(x + k * y == (x / c + k * (y / c)) * c) by (nonlinear_arith)
        requires
            x == c * (x / c),
            y == c * (y / c),
    ;
    vstd::arithmetic::div_mod::lemma_mod_multiples_basic(x / c + k * (y / c), c);
}

/// `spec_gcd` divides both of its arguments, and is positive as soon as one
/// of them is.
pub proof fn lemma_gcd_divides(a: int, b: int)
    requires
        a >= 0,
        b >= 0,
    ensures
        a > 0 || b > 0 ==> spec_gcd(a, b) > 0,
        spec_gcd(a, b) > 0 ==> a % spec_gcd(a, b) == 0 && b % spec_gcd(a, b) == 0,
    decreases b,
{
    if b == 0 {
        if a > 0 {
            vstd::arithmetic::div_mod::lemma_mod_self_0(a);
            lemma_small_mod(0nat, a as nat);
        }
    } else {
        lemma_gcd_divides(b, a % b);
        let g: int = spec_gcd(b, a % b);
        lemma_fundamental_div_mod(a, b);
        // a == (a % b) + (a / b) * b, and g divides both parts
        lemma_divisor_of_combination(g, a % b, b, a / b);
        assert(a % g == 0);
    }
}

/// Every common divisor of `a` and `b` divides `spec_gcd(a, b)`: together
/// with `lemma_gcd_divides`, `spec_gcd` is the greatest common divisor.
pub proof fn lemma_gcd_is_greatest(a: int, b: int, c: int)
    requires
        a >= 0,
        b >= 0,
        c > 0,
        a % c == 0,
        b % c == 0,
    ensures
        spec_gcd(a, b) % c == 0,
    decreases b,
{
    if b == 0 {
    } else {
        lemma_fundamental_div_mod(a, b);
        // a % b == a + (-(a / b)) * b, so c divides it too
        lemma_divisor_of_combination(c, a, b, -(a / b));
        assert(a % b == a + (-(a / b)) * b) by (nonlinear_arith)
            requires
                a == b * (a / b) + a % b,
        ;
        assert((a % b) % c == 0);
        lemma_gcd_is_greatest(b, a % b, c);
    }
}

/// The Bezout identity `g == a * x + b * y` for the pair `(a, b)`.
pub open spec fn bezout_relation(a: int, b: int, x: int, y: int, g: int) -> bool {
    g == a * x + b * y
}

/// The greatest common divisor is a linear combination of its arguments.
pub proof fn lemma_bezout(a: int, b: int)
    requires
        a >= 0,
        b >= 0,
    ensures
        exists|x: int, y: int| #[trigger] bezout_relation(a, b, x, y, spec_gcd(a, b)),
    decreases b,
{
    if b == 0 {
        assert(bezout_relation(a, b, 1, 0, spec_gcd(a, b)));
    } else {
        lemma_bezout(b, a % b);
        let g: int = spec_gcd(b, a % b);
        let (x2, y2): (int, int) = choose|x2: int, y2: int| #[trigger] bezout_relation(b, a % b, x2, y2, g);
        lemma_fundamental_div_mod(a, b);
        assert(g == a * y2 + b * (x2 - (a / b) * y2)) by (nonlinear_arith)
            requires
                g == b * x2 + (a % b) * y2,
                a % b == a - b * (a / b),
        ;
        assert(bezout_relation(a, b, y2, x2 - (a / b) * y2, spec_gcd(a, b)));
    }
}

/// A number divisible by each of two coprime factors is divisible by their
/// product.
pub proof fn lemma_coprime_factors_divide(p: int, q: int, z: int)
    requires
        p >= 1,
        q >= 1,
        spec_gcd(p, q) == 1,
        z % p == 0,
        z % q == 0,
    ensures
        z % (p * q) == 0,
{
    lemma_bezout(p, q);
    let (x, y): (int, int) = choose|x: int, y: int| #[trigger] bezout_relation(p, q, x, y, 1);
    lemma_fundamental_div_mod(z, p);
    lemma_fundamental_div_mod(z, q);
    // z == z * (p*x + q*y), and both halves carry a factor p*q
    assert(z == (p * q) * ((z / q) * x + (z / p) * y)) by (nonlinear_arith)
        requires
            1 == p * x + q * y,
            z == p * (z / p),
            z == q * (z / q),
    ;
    assert(p * q >= 1) by (nonlinear_arith)
        requires
            p >= 1,
            q >= 1,
    ;
    vstd::arithmetic::div_mod::lemma_mod_multiples_basic(
        (z / q) * x + (z / p) * y,
        p * q,
    );
    assert((((z / q) * x + (z / p) * y) * (p * q)) == z) by (nonlinear_arith)
        requires
            z == (p * q) * ((z / q) * x + (z / p) * y),
    ;
}

/// With an exponent of the form `1 + (p-1)*k`, one application of Fermat's
/// little theorem collapses `m^exponent` to `m` modulo `p`. The theorem
/// itself enters as the hypothesis on `m^(p-1)`.
pub proof fn lemma_fermat_reduce(m: int, p: int, k: int, exponent: int)
    requires
        p >= 2,
        k >= 0,
        exponent == 1 + (p - 1) * k,
        m % p != 0 ==> pow(m, (p - 1) as nat) % p == 1,
    ensures
        pow(m, exponent as nat) % p == m % p,
{
    assert((p - 1) * k >= 0) by (nonlinear_arith)
        requires
            p >= 2,
            k >= 0,
    ;
    if m % p == 0 {
        vstd::arithmetic::power::lemma_pow_mod_noop(m, exponent as nat, p);
        vstd::arithmetic::power::lemma0_pow(exponent as nat);
        lemma_small_mod(0nat, p as nat);
    } else {
        let fermat = pow(m, (p - 1) as nat);
        vstd::arithmetic::power::lemma_pow_adds(m, 1nat, ((p - 1) * k) as nat);
        vstd::arithmetic::power::lemma_pow1(m);
        assert(((p - 1) * k) as nat == ((p - 1) as nat) * (k as nat)) by (nonlinear_arith)
            requires
                p >= 2,
                k >= 0,
        ;
        vstd::arithmetic::power::lemma_pow_multiplies(m, (p - 1) as nat, k as nat);
        // m^exponent == m * (m^(p-1))^k
        assert(pow(m, exponent as nat) == m * pow(fermat, k as nat));
        vstd::arithmetic::div_mod::lemma_mul_mod_noop_right(m, pow(fermat, k as nat), p);
        vstd::arithmetic::power::lemma_pow_mod_noop(fermat, k as nat, p);
        vstd::arithmetic::power::lemma1_pow(k as nat);
        lemma_small_mod(1nat, p as nat);
        // (m^(p-1))^k is 1 modulo p, so the product reduces to m
        assert(pow(fermat, k as nat) % p == 1);
        assert((m * 1) % p == m % p);
    }
}

/// Writing an integer as an odd number times a power of two is unique: the
/// odd factor is its `odd_part` and the exponent its `two_adic` valuation.
pub proof fn lemma_power_2_factoring_unique(m: int, k: nat)
    requires
        m >= 1,
        m % 2 == 1,
    ensures
        odd_part(pow2(k) * m) == m,
        two_adic(pow2(k) * m) == k,
    decreases k,
{
    if k == 0 {
        assert(pow2(0) == 1) by {
            vstd::arithmetic::power2::lemma2_to64();
        }
        assert(pow2(0) * m == m);
    } else {
        lemma_power_2_factoring_unique(m, (k - 1) as nat);
        let inner: int = pow2((k - 1) as nat) * m;
        assert(pow2(k) == 2 * pow2((k - 1) as nat)) by {
            vstd::arithmetic::power2::lemma_pow2_unfold(k);
        }
        assert(pow2(k) * m == 2 * inner) by (nonlinear_arith)
            requires
                pow2(k) == 2 * pow2((k - 1) as nat),
                inner == pow2((k - 1) as nat) * m,
        ;
        assert(inner >= 1) by (nonlinear_arith)
            requires
                inner == pow2((k - 1) as nat) * m,
                pow2((k - 1) as nat) >= 1,
                m >= 1,
        {
            lemma_pow2_pos((k - 1) as nat);
        }
        assert((2 * inner) % 2 == 0) by (nonlinear_arith)
            requires
                inner >= 1,
        ;
        assert((2 * inner) / 2 == inner) by (nonlinear_arith)
            requires
                inner >= 1,
        ;
    }
}

/// Greatest common divisor of two non-negative arbitrary-precision integers,
/// by the Euclidean algorithm.
pub fn gcd(a: &BigInt, b: &BigInt) -> (r: BigInt)
    requires
        big_value(*a) >= 0,
        big_value(*b) >= 0,
    ensures
        big_value(r) == spec_gcd(big_value(*a), big_value(*b)),
{
    let zero = big_from_u64(0);
    let mut r0 = big_clone(a);
    let mut r1 = big_clone(b);
    loop
        invariant
            big_value(zero) == 0,
            big_value(r0) >= 0,
            big_value(r1) >= 0,
            spec_gcd(big_value(r0), big_value(r1)) == spec_gcd(big_value(*a), big_value(*b)),
        ensures
            big_value(r1) == 0,
            spec_gcd(big_value(r0), big_value(r1)) == spec_gcd(big_value(*a), big_value(*b)),
        decreases big_value(r1),
    {
        if big_eq(&r1, &zero) {
            break ;
        }
        let r2 = big_rem(&r0, &r1);
        r0 = r1;
        r1 = r2;
    }
    r0
}

/// The multiplicative inverse of `a` modulo `b`, by the extended Euclidean
/// algorithm, tracking only the Bezout coefficient of `a`. Defined exactly
/// when `a` and `b` are coprime; any other pair is answered with an explicit
/// error rather than a plausible-looking wrong number.
#[verifier::rlimit(50)]
pub fn multiplicative_inverse(a: &BigInt, b: &BigInt) -> (r: Result<BigInt, MathError>)
    requires
        big_value(*a) >= 0,
        big_value(*b) >= 2,
    ensures
        r is Ok <==> spec_gcd(big_value(*a), big_value(*b)) == 1,
        r matches Ok(d) ==> 0 <= big_value(d) < big_value(*b) && (big_value(*a) * big_value(d))
            % big_value(*b) == 1,
        r matches Err(e) ==> e == MathError::NotInvertible,
{
    let ghost av: int = big_value(*a);
    let ghost bv: int = big_value(*b);
    let zero = big_from_u64(0);
    let one = big_from_u64(1);
    let mut r0 = big_clone(b);
    let mut r1 = big_clone(a);
    let mut t0 = big_from_u64(0);
    let mut t1 = big_from_u64(1);
    let ghost mut k0: int = 1;
    let ghost mut k1: int = 0;
    loop
        invariant
            big_value(zero) == 0,
            big_value(one) == 1,
            av == big_value(*a),
            bv == big_value(*b),
            av >= 0,
            bv >= 2,
            big_value(r0) >= 1,
            big_value(r1) >= 0,
            spec_gcd(big_value(r0), big_value(r1)) == spec_gcd(bv, av),
            big_value(r0) == big_value(t0) * av + k0 * bv,
            big_value(r1) == big_value(t1) * av + k1 * bv,
        ensures
            big_value(r1) == 0,
            big_value(r0) >= 1,
            spec_gcd(big_value(r0), big_value(r1)) == spec_gcd(bv, av),
            big_value(r0) == big_value(t0) * av + k0 * bv,
        decreases big_value(r1),
    {
        if big_eq(&r1, &zero) {
            break ;
        }
        let q = big_div(&r0, &r1);
        let qr = big_mul(&q, &r1);
        let r2 = big_sub(&r0, &qr);
        let qt = big_mul(&q, &t1);
        let t2 = big_sub(&t0, &qt);
        proof {
            let r0v: int = big_value(r0);
            let r1v: int = big_value(r1);
            let qv: int = big_value(q);
            assert(big_value(r2) == r0v % r1v) by {
                lemma_fundamental_div_mod(r0v, r1v);
            }
            assert(spec_gcd(r0v, r1v) == spec_gcd(r1v, r0v % r1v));
            let k2: int = k0 - qv * k1;
            assert(big_value(r2) == big_value(t2) * av + k2 * bv) by (nonlinear_arith)
                requires
                    big_value(r2) == r0v - qv * r1v,
                    big_value(t2) == big_value(t0) - qv * big_value(t1),
                    k2 == k0 - qv * k1,
                    r0v == big_value(t0) * av + k0 * bv,
                    r1v == big_value(t1) * av + k1 * bv,
            ;
            k0 = k1;
            k1 = k2;
        }
        r0 = r1;
        r1 = r2;
        t0 = t1;
        t1 = t2;
    }
    proof {
        lemma_gcd_symmetric(av, bv);
    }
    if big_eq(&r0, &one) {
        let dr = big_rem(&t0, b);
        let ghost drv: int = big_value(dr);
        let d = if big_lt(&dr, &zero) {
            big_add(&dr, b)
        } else {
            dr
        };
        proof {
            let t0v: int = big_value(t0);
            let dv: int = big_value(d);
            // d is t0 shifted by a multiple of b into [0, b)
            if t0v >= 0 {
                lemma_fundamental_div_mod(t0v, bv);
                let qw: int = t0v / bv;
                assert(drv == t0v % bv);
                assert(0 <= drv < bv);
                assert(dv == drv);
                assert(dv == t0v + (-qw) * bv) by (nonlinear_arith)
                    requires
                        t0v == bv * qw + dv,
                ;
                lemma_shift_to_inverse(av, bv, t0v, k0, dv, -qw);
            } else {
                let nv: int = -t0v;
                lemma_fundamental_div_mod(nv, bv);
                let qw: int = nv / bv;
                assert(drv == -(nv % bv));
                assert(0 <= nv % bv < bv);
                if drv < 0 {
                    assert(dv == drv + bv);
                    assert(0 <= dv < bv);
                    assert(dv == t0v + (qw + 1) * bv) by (nonlinear_arith)
                        requires
                            nv == bv * qw + (bv - dv),
                            t0v == -nv,
                    ;
                    lemma_shift_to_inverse(av, bv, t0v, k0, dv, qw + 1);
                } else {
                    assert(dv == drv);
                    assert(dv == 0);
                    assert(dv == t0v + qw * bv) by (nonlinear_arith)
                        requires
                            nv == bv * qw,
                            t0v == -nv,
                            dv == 0,
                    ;
                    lemma_shift_to_inverse(av, bv, t0v, k0, dv, qw);
                }
            }
        }
        Ok(d)
    } else {
        Err(MathError::NotInvertible)
    }
}

/// Shifting a Bezout coefficient of `a` by a multiple of the modulus into
/// `[0, b)` yields the canonical modular inverse.
proof fn lemma_shift_to_inverse(av: int, bv: int, t0v: int, k0: int, dv: int, w: int)
    requires
        bv >= 2,
        1 == t0v * av + k0 * bv,
        dv == t0v + w * bv,
        0 <= dv < bv,
    ensures
        (av * dv) % bv == 1,
{
    assert(av * dv == bv * (av * w - k0) + 1) by (nonlinear_arith)
        requires
            1 == t0v * av + k0 * bv,
            dv == t0v + w * bv,
    ;
    assert((bv * (av * w - k0) + 1) % bv == 1int % bv) by {
        lemma_mod_multiples_vanish(av * w - k0, 1, bv);
    }
    assert(1int % bv == 1) by {
        lemma_small_mod(1nat, bv as nat);
    }
}

/// Decompose a positive integer as an odd number times a power of two.
/// Returns the odd factor and the exponent.
pub fn factor_power_2(n: &BigInt) -> (r: (BigInt, u32))
    requires
        1 <= big_value(*n) < pow2(u32::MAX as nat),
    ensures
        big_value(r.0) >= 1,
        big_value(r.0) % 2 == 1,
        big_value(*n) == pow2(r.1 as nat) * big_value(r.0),
        big_value(r.0) == odd_part(big_value(*n)),
        r.1 as nat == two_adic(big_value(*n)),
{
    let zero = big_from_u64(0);
    let two = big_from_u64(2);
    let mut m = big_clone(n);
    let mut k: u32 = 0;
    proof {
        assert(pow2(0) == 1) by {
            vstd::arithmetic::power2::lemma2_to64();
        }
    }
    loop
        invariant
            big_value(zero) == 0,
            big_value(two) == 2,
            big_value(m) >= 1,
            big_value(*n) < pow2(u32::MAX as nat),
            big_value(*n) == pow2(k as nat) * big_value(m),
        ensures
            big_value(m) >= 1,
            big_value(m) % 2 == 1,
            big_value(*n) == pow2(k as nat) * big_value(m),
        decreases big_value(m),
    {
        let rem = big_rem(&m, &two);
        if !big_eq(&rem, &zero) {
            break ;
        }
        proof {
            assert(pow2(k as nat) >= 1) by {
                lemma_pow2_pos(k as nat);
            }
            assert(pow2(k as nat) * big_value(m) >= pow2(k as nat)) by (nonlinear_arith)
                requires
                    pow2(k as nat) >= 1,
                    big_value(m) >= 1,
            ;
            if k as nat + 1 > u32::MAX as nat {
                assert(pow2(u32::MAX as nat) <= pow2(k as nat)) by {
                    if (u32::MAX as nat) < k as nat {
                        lemma_pow2_strictly_increases(u32::MAX as nat, k as nat);
                    }
                }
                assert(false);
            }
        }
        let half = big_div(&m, &two);
        proof {
            let mv: int = big_value(m);
            let hv: int = big_value(half);
            assert(mv == 2 * hv) by {
                lemma_fundamental_div_mod(mv, 2);
            }
            assert(pow2(k as nat + 1) == 2 * pow2(k as nat)) by {
                vstd::arithmetic::power2::lemma_pow2_unfold(k as nat + 1);
            }
            assert(pow2(k as nat) * mv == pow2(k as nat + 1) * hv) by (nonlinear_arith)
                requires
                    mv == 2 * hv,
                    pow2(k as nat + 1) == 2 * pow2(k as nat),
            ;
        }
        m = half;
        k = k + 1;
    }
    proof {
        lemma_power_2_factoring_unique(big_value(m), k as nat);
    }
    (m, k)
}

/// One Miller-Rabin round for candidate `n` (odd, above two) and witness
/// `base`. Returns exactly what `spec_miller_passes` says of the pair.
pub fn miller_test(n: &BigInt, b: u64) -> (r: bool)
    requires
        big_value(*n) > 2,
        big_value(*n) % 2 == 1,
        big_value(*n) <= pow2(u32::MAX as nat),
    ensures
        r == spec_miller_passes(big_value(*n), b as int),
{
    let ghost nv: int = big_value(*n);
    let ghost d: int = odd_part(nv - 1);
    let one = big_from_u64(1);
    let two = big_from_u64(2);
    let n_minus_one = big_sub(n, &one);
    let (t, s) = factor_power_2(&n_minus_one);
    let base = big_from_u64(b);
    let x = big_modpow(&base, &t, n);
    proof {
        assert(pow2(0) == 1) by {
            vstd::arithmetic::power2::lemma2_to64();
        }
        // n odd, so n - 1 is even and splits off at least one factor of two
        assert(two_adic(nv - 1) >= 1);
    }
    if big_eq(&x, &one) {
        return true;
    }
    if big_eq(&x, &n_minus_one) {
        proof {
            assert(pow2(0) * d == d);
            assert(0 < two_adic(nv - 1) && pow(b as int, (pow2(0) * d) as nat) % nv == nv - 1);
        }
        return true;
    }
    let mut exp = big_clone(&t);
    let mut counter: u32 = 0;
    loop
        invariant
            nv == big_value(*n),
            nv > 2,
            nv % 2 == 1,
            big_value(one) == 1,
            big_value(two) == 2,
            big_value(n_minus_one) == nv - 1,
            big_value(base) == b as int,
            d == odd_part(nv - 1),
            big_value(t) == d,
            d >= 1,
            s as nat == two_adic(nv - 1),
            counter <= s,
            big_value(exp) == pow2(counter as nat) * d,
            big_value(exp) >= 1,
            pow(b as int, d as nat) % nv != 1,
            forall|c: nat|
                #![trigger pow2(c)]
                c < counter as nat ==> pow(b as int, (pow2(c) * d) as nat) % nv != nv - 1,
        ensures
            counter == s,
            forall|c: nat|
                #![trigger pow2(c)]
                c < s as nat ==> pow(b as int, (pow2(c) * d) as nat) % nv != nv - 1,
            pow(b as int, d as nat) % nv != 1,
        decreases s - counter,
    {
        if counter >= s {
            break ;
        }
        let x2 = big_modpow(&base, &exp, n);
        if big_eq(&x2, &n_minus_one) {
            proof {
                assert((counter as nat) < two_adic(nv - 1) && pow(
                    b as int,
                    (pow2(counter as nat) * d) as nat,
                ) % nv == nv - 1);
            }
            return true;
        }
        let doubled = big_mul(&exp, &two);
        proof {
            assert(pow2(counter as nat + 1) == 2 * pow2(counter as nat)) by {
                vstd::arithmetic::power2::lemma_pow2_unfold(counter as nat + 1);
            }
            assert(2 * (pow2(counter as nat) * d) == pow2(counter as nat + 1) * d)
                by (nonlinear_arith)
                requires
                    pow2(counter as nat + 1) == 2 * pow2(counter as nat),
            ;
        }
        exp = doubled;
        counter = counter + 1;
    }
    false
}

/// Decide primality of `p` with the Miller-Rabin test over the witness bases
/// `2, 3, ..., max_miller_bases - 1`, after short-circuiting the small and
/// even cases. A `true` verdict is probabilistic: its error rate shrinks as
/// `max_miller_bases` grows, but it is never a proof of primality.
pub fn is_prime(p: &BigInt, max_miller_bases: u64) -> (r: bool)
    requires
        big_value(*p) <= pow2(u32::MAX as nat),
    ensures
        r == passes_prime_test(big_value(*p), max_miller_bases),
{
    let ghost pv: int = big_value(*p);
    let zero = big_from_u64(0);
    let two = big_from_u64(2);
    if big_lt(p, &two) {
        return false;
    }
    if big_eq(p, &two) {
        return true;
    }
    let rem = big_rem(p, &two);
    if big_eq(&rem, &zero) {
        return false;
    }
    let mut b: u64 = 2;
    while b < max_miller_bases
        invariant
            pv == big_value(*p),
            pv > 2,
            pv % 2 == 1,
            pv <= pow2(u32::MAX as nat),
            2 <= b,
            forall|bb: int| 2 <= bb < b ==> #[trigger] spec_miller_passes(pv, bb),
        decreases max_miller_bases - b,
    {
        if !miller_test(p, b) {
            proof {
                assert(2 <= b as int && (b as int) < max_miller_bases && !spec_miller_passes(pv, b as int));
            }
            return false;
        }
        b = b + 1;
    }
    true
}

/// Search for a probable prime of the requested bit width by rejection
/// sampling: draw a random value of that width, take its magnitude, force it
/// odd, and keep it when `is_prime` accepts it with `bits` as the confidence
/// parameter. Gives up with an explicit error after `MAX_SAMPLING_ATTEMPTS`
/// draws, so that an unlucky randomness source cannot spin forever.
pub fn generate_random_prime(bits: u64) -> (r: Result<BigInt, MathError>)
    requires
        2 <= bits <= u32::MAX as u64,
    ensures
        r matches Ok(p) ==> big_value(p) > 2 && big_value(p) % 2 == 1 && big_value(p) < pow2(
            bits as nat,
        ) && passes_prime_test(big_value(p), bits),
        r matches Err(e) ==> e == MathError::RetriesExhausted,
{
    let zero = big_from_u64(0);
    let one = big_from_u64(1);
    let two = big_from_u64(2);
    let mut rng = fresh_rng();
    let mut attempts: u64 = 0;
    while attempts < MAX_SAMPLING_ATTEMPTS
        invariant
            big_value(zero) == 0,
            big_value(one) == 1,
            big_value(two) == 2,
            2 <= bits <= u32::MAX as u64,
        decreases MAX_SAMPLING_ATTEMPTS - attempts,
    {
        let mut candidate = big_random_bits(&mut rng, bits);
        if big_lt(&candidate, &zero) {
            candidate = big_neg(&candidate);
        }
        let rem = big_rem(&candidate, &two);
        if big_eq(&rem, &zero) {
            proof {
                // an even candidate sits at least two below the (even) bound
                // 2^bits, so forcing it odd keeps it below the bound
                let cv: int = big_value(candidate);
                assert(pow2(bits as nat) == 2 * pow2((bits - 1) as nat)) by {
                    vstd::arithmetic::power2::lemma_pow2_unfold(bits as nat);
                }
                assert(cv + 1 < pow2(bits as nat)) by {
                    lemma_fundamental_div_mod(cv, 2);
                }
            }
            candidate = big_add(&candidate, &one);
        }
        proof {
            assert(big_value(candidate) % 2 == 1);
            assert(big_value(candidate) < pow2(bits as nat));
            assert(pow2(bits as nat) <= pow2(u32::MAX as nat)) by {
                if (bits as nat) < u32::MAX as nat {
                    lemma_pow2_strictly_increases(bits as nat, u32::MAX as nat);
                }
            }
        }
        if is_prime(&candidate, bits) {
            return Ok(candidate);
        }
        attempts = attempts + 1;
    }
    Err(MathError::RetriesExhausted)
}

} // verus!
