//! The RSA key component: an immutable key triple `(n, e, d)` with the four
//! primitive operations (encrypt, decrypt, sign, verify), and key generation
//! composed from the number-theory primitives.

use vstd::prelude::*;
use vstd::arithmetic::div_mod::lemma_fundamental_div_mod;
use vstd::arithmetic::power::{lemma_pow_mod_noop, lemma_pow_multiplies, pow};
use vstd::arithmetic::power2::pow2;

use num_bigint::BigInt;

use crate::fermat::{lemma_distinct_primes_coprime, lemma_fermat_little, spec_prime};

use crate::bignum::{
    big_eq, big_from_u64, big_modpow, big_mul, big_random_range, big_sub, big_value, fresh_rng,
};
use crate::math::{
    generate_random_prime, gcd, lemma_coprime_factors_divide, lemma_fermat_reduce,
    multiplicative_inverse, passes_prime_test, spec_gcd, MathError, MAX_SAMPLING_ATTEMPTS,
};

verus! {

/// An RSA key triple: public modulus `n`, public exponent `e`, private
/// exponent `d`. Constructed once, read-only thereafter.
pub struct RSAKey {
    pub n: BigInt,
    pub e: BigInt,
    pub d: BigInt,
}

/// A single textbook-RSA operation: raise `m` to `exponent` modulo `n`.
pub open spec fn spec_rsa_transform(m: int, exponent: int, n: int) -> int
    recommends
        n >= 1,
        exponent >= 0,
{
    pow(m, exponent as nat) % n
}

/// What key generation from the prime pair `(pp, qq)` promises of the
/// resulting triple: the modulus is the product of the pair, the public
/// exponent lies strictly between `1` and the totient `(pp-1)*(qq-1)` and is
/// coprime to it, and the private exponent is its inverse modulo the totient.
pub open spec fn spec_key_from_primes(key: RSAKey, pp: int, qq: int) -> bool {
    &&& big_value(key.n) == pp * qq
    &&& 1 < big_value(key.e) < (pp - 1) * (qq - 1)
    &&& spec_gcd(big_value(key.e), (pp - 1) * (qq - 1)) == 1
    &&& 0 <= big_value(key.d) < (pp - 1) * (qq - 1)
    &&& (big_value(key.e) * big_value(key.d)) % ((pp - 1) * (qq - 1)) == 1
}

/// Applying the key's two exponents one after the other composes into a
/// single modular exponentiation: `m` is carried to `m^(e*d) mod n`, in
/// either order of the exponents. This is the unconditional half of the
/// round-trip law `decrypt(encrypt(m)) == m`; the remaining step,
/// `m^(e*d) == m (mod n)`, is `lemma_round_trip_from_fermat`, which needs
/// Fermat's little theorem granted for the factors of `n`.
pub proof fn lemma_round_trip_exponent(key: RSAKey, m: int)
    requires
        big_value(key.n) >= 1,
        big_value(key.e) >= 0,
        big_value(key.d) >= 0,
    ensures
        spec_rsa_transform(
            spec_rsa_transform(m, big_value(key.e), big_value(key.n)),
            big_value(key.d),
            big_value(key.n),
        ) == pow(m, (big_value(key.e) * big_value(key.d)) as nat) % big_value(key.n),
        spec_rsa_transform(
            spec_rsa_transform(m, big_value(key.d), big_value(key.n)),
            big_value(key.e),
            big_value(key.n),
        ) == pow(m, (big_value(key.e) * big_value(key.d)) as nat) % big_value(key.n),
{
    let ev: int = big_value(key.e);
    let dv: int = big_value(key.d);
    let nv: int = big_value(key.n);
    lemma_pow_mod_noop(pow(m, ev as nat), dv as nat, nv);
    lemma_pow_multiplies(m, ev as nat, dv as nat);
    lemma_pow_mod_noop(pow(m, dv as nat), ev as nat, nv);
    lemma_pow_multiplies(m, dv as nat, ev as nat);
    assert((ev * dv) as nat == (ev as nat) * (dv as nat)) by (nonlinear_arith)
        requires
            ev >= 0,
            dv >= 0,
    ;
    assert((ev as nat) * (dv as nat) == (dv as nat) * (ev as nat)) by (nonlinear_arith);
}

/// The round-trip law for a key built from the coprime pair `(p, q)`,
/// reduced to Fermat's little theorem: when the exponents are inverses
/// modulo `(p-1)*(q-1)` and each factor satisfies `m^(p-1) == 1 (mod p)`
/// whenever it does not divide `m`, the value `m^(e*d) mod p*q` is `m`
/// itself for every `0 <= m < p*q`. The hypotheses on `m^(p-1)` and
/// `m^(q-1)` are exactly Fermat's little theorem for the two factors;
/// `lemma_key_round_trip` discharges them from primality.
pub proof fn lemma_round_trip_from_fermat(p: int, q: int, e_val: int, d_val: int, m: int)
    requires
        p >= 2,
        q >= 2,
        spec_gcd(p, q) == 1,
        e_val >= 1,
        d_val >= 1,
        (e_val * d_val) % ((p - 1) * (q - 1)) == 1,
        0 <= m < p * q,
        m % p != 0 ==> pow(m, (p - 1) as nat) % p == 1,
        m % q != 0 ==> pow(m, (q - 1) as nat) % q == 1,
    ensures
        pow(m, (e_val * d_val) as nat) % (p * q) == m,
{
    let ed: int = e_val * d_val;
    let phi: int = (p - 1) * (q - 1);
    assert(ed >= 1 && phi >= 1 && p * q >= 4) by (nonlinear_arith)
        requires
            e_val >= 1,
            d_val >= 1,
            p >= 2,
            q >= 2,
            phi == (p - 1) * (q - 1),
            ed == e_val * d_val,
    ;
    // split the exponent as 1 + phi * k
    lemma_fundamental_div_mod(ed, phi);
    let k: int = ed / phi;
    assert(k >= 0) by {
        if k < 0 {
            assert(phi * k <= -phi) by (nonlinear_arith)
                requires
                    phi >= 1,
                    k <= -1,
            ;
        }
    }
    assert(ed == 1 + (p - 1) * ((q - 1) * k)) by (nonlinear_arith)
        requires
            ed == phi * k + 1,
            phi == (p - 1) * (q - 1),
    ;
    assert((q - 1) * k >= 0 && (p - 1) * k >= 0) by (nonlinear_arith)
        requires
            p >= 2,
            q >= 2,
            k >= 0,
    ;
    lemma_fermat_reduce(m, p, (q - 1) * k, ed);
    assert(ed == 1 + (q - 1) * ((p - 1) * k)) by (nonlinear_arith)
        requires
            ed == phi * k + 1,
            phi == (p - 1) * (q - 1),
    ;
    lemma_fermat_reduce(m, q, (p - 1) * k, ed);
    // m^ed agrees with m modulo p and modulo q, hence modulo p*q
    let z: int = pow(m, ed as nat) - m;
    vstd::arithmetic::div_mod::lemma_mod_equivalence(pow(m, ed as nat), m, p);
    vstd::arithmetic::div_mod::lemma_mod_equivalence(pow(m, ed as nat), m, q);
    lemma_coprime_factors_divide(p, q, z);
    vstd::arithmetic::div_mod::lemma_mod_equivalence(pow(m, ed as nat), m, p * q);
    vstd::arithmetic::div_mod::lemma_small_mod(m as nat, (p * q) as nat);
}

/// The full round-trip law for a generated key, reduced to Fermat's little
/// theorem for the two factors: both `decrypt(encrypt(m))` and
/// `verify(sign(m))` recover `m` for every `0 <= m < n`.
pub proof fn lemma_key_round_trip_from_fermat(key: RSAKey, pp: int, qq: int, m: int)
    requires
        spec_key_from_primes(key, pp, qq),
        pp >= 2,
        qq >= 2,
        spec_gcd(pp, qq) == 1,
        0 <= m < pp * qq,
        m % pp != 0 ==> pow(m, (pp - 1) as nat) % pp == 1,
        m % qq != 0 ==> pow(m, (qq - 1) as nat) % qq == 1,
    ensures
        spec_rsa_transform(
            spec_rsa_transform(m, big_value(key.e), big_value(key.n)),
            big_value(key.d),
            big_value(key.n),
        ) == m,
        spec_rsa_transform(
            spec_rsa_transform(m, big_value(key.d), big_value(key.n)),
            big_value(key.e),
            big_value(key.n),
        ) == m,
{
    let ev: int = big_value(key.e);
    let dv: int = big_value(key.d);
    let phi: int = (pp - 1) * (qq - 1);
    assert(big_value(key.n) >= 1) by (nonlinear_arith)
        requires
            big_value(key.n) == pp * qq,
            pp >= 2,
            qq >= 2,
    ;
    assert(dv >= 1) by {
        if dv == 0 {
            assert(ev * dv == 0) by (nonlinear_arith)
                requires
                    dv == 0,
            ;
            assert(phi >= 1) by (nonlinear_arith)
                requires
                    pp >= 2,
                    qq >= 2,
                    phi == (pp - 1) * (qq - 1),
            ;
            vstd::arithmetic::div_mod::lemma_small_mod(0nat, phi as nat);
        }
    }
    lemma_round_trip_exponent(key, m);
    lemma_round_trip_from_fermat(pp, qq, ev, dv, m);
}

/// The round-trip law of the key component, in full: for a key built from
/// two distinct prime factors, both decrypt-after-encrypt and
/// verify-after-sign recover every message `0 <= m < n`. What keeps this
/// from applying to a key the generator returns is only that the
/// probabilistic primality test cannot certify `spec_prime` of the factors.
pub proof fn lemma_key_round_trip(key: RSAKey, pp: int, qq: int, m: int)
    requires
        spec_key_from_primes(key, pp, qq),
        spec_prime(pp),
        spec_prime(qq),
        pp != qq,
        0 <= m < pp * qq,
    ensures
        spec_rsa_transform(
            spec_rsa_transform(m, big_value(key.e), big_value(key.n)),
            big_value(key.d),
            big_value(key.n),
        ) == m,
        spec_rsa_transform(
            spec_rsa_transform(m, big_value(key.d), big_value(key.n)),
            big_value(key.e),
            big_value(key.n),
        ) == m,
{
    lemma_distinct_primes_coprime(pp, qq);
    if m % pp != 0 {
        lemma_fermat_little(m, pp);
    }
    if m % qq != 0 {
        lemma_fermat_little(m, qq);
    }
    lemma_key_round_trip_from_fermat(key, pp, qq, m);
}

impl RSAKey {
    /// Assemble a key from known components, as when loading an existing key.
    pub fn new(n: BigInt, e: BigInt, d: BigInt) -> (r: Self)
        ensures
            r.n == n,
            r.e == e,
            r.d == d,
    {
        RSAKey { n, e, d }
    }

    /// Encrypt: `c = m^e mod n`. The round trip back through `decrypt` is
    /// only promised for `0 <= m < n`; other values are silently reduced.
    pub fn encrypt(&self, message: &BigInt) -> (r: BigInt)
        requires
            big_value(self.n) >= 1,
            big_value(self.e) >= 0,
        ensures
            big_value(r) == spec_rsa_transform(
                big_value(*message),
                big_value(self.e),
                big_value(self.n),
            ),
            0 <= big_value(r) < big_value(self.n),
    {
        big_modpow(message, &self.e, &self.n)
    }

    /// Decrypt: `m = c^d mod n`.
    pub fn decrypt(&self, ciphertext: &BigInt) -> (r: BigInt)
        requires
            big_value(self.n) >= 1,
            big_value(self.d) >= 0,
        ensures
            big_value(r) == spec_rsa_transform(
                big_value(*ciphertext),
                big_value(self.d),
                big_value(self.n),
            ),
            0 <= big_value(r) < big_value(self.n),
    {
        big_modpow(ciphertext, &self.d, &self.n)
    }

    /// Sign: `s = m^d mod n`.
    pub fn sign(&self, message: &BigInt) -> (r: BigInt)
        requires
            big_value(self.n) >= 1,
            big_value(self.d) >= 0,
        ensures
            big_value(r) == spec_rsa_transform(
                big_value(*message),
                big_value(self.d),
                big_value(self.n),
            ),
            0 <= big_value(r) < big_value(self.n),
    {
        big_modpow(message, &self.d, &self.n)
    }

    /// Verify: recover `m = s^e mod n` from a signature.
    pub fn verify(&self, signature: &BigInt) -> (r: BigInt)
        requires
            big_value(self.n) >= 1,
            big_value(self.e) >= 0,
        ensures
            big_value(r) == spec_rsa_transform(
                big_value(*signature),
                big_value(self.e),
                big_value(self.n),
            ),
            0 <= big_value(r) < big_value(self.n),
    {
        big_modpow(signature, &self.e, &self.n)
    }

    /// Build a keypair from the prime pair `(p, q)`: derive the modulus and
    /// the totient, search for a valid public exponent, and derive the
    /// private exponent as its modular inverse. The inverse always exists
    /// for the exponent found, so the only failure is an exhausted exponent
    /// search.
    pub fn generate_keypair(p: &BigInt, q: &BigInt) -> (r: Result<Self, MathError>)
        requires
            big_value(*p) >= 3,
            big_value(*q) >= 3,
        ensures
            r matches Ok(key) ==> spec_key_from_primes(key, big_value(*p), big_value(*q)),
            r matches Err(e) ==> e == MathError::RetriesExhausted,
    {
        let n = big_mul(p, q);
        let one = big_from_u64(1);
        let pm1 = big_sub(p, &one);
        let qm1 = big_sub(q, &one);
        let phi = big_mul(&pm1, &qm1);
        proof {
            assert(big_value(phi) >= 4) by (nonlinear_arith)
                requires
                    big_value(phi) == (big_value(*p) - 1) * (big_value(*q) - 1),
                    big_value(*p) >= 3,
                    big_value(*q) >= 3,
            ;
        }
        let e = match rsa_make_e(p, q) {
            Ok(e) => e,
            Err(_) => {
                return Err(MathError::RetriesExhausted);
            },
        };
        let d = match multiplicative_inverse(&e, &phi) {
            Ok(d) => d,
            Err(_) => {
                // the exponent search only returns values coprime to the
                // totient, for which the inverse exists
                proof {
                    assert(false);
                }
                return Err(MathError::RetriesExhausted);
            },
        };
        Ok(RSAKey::new(n, e, d))
    }

    /// Generate a fresh key of roughly the requested bit width: two random
    /// primes of half the width, then a keypair built from them. A degenerate
    /// tiny width can in principle produce equal primes, which silently
    /// breaks the cryptosystem; realistic widths avoid this with
    /// overwhelming probability.
    pub fn generate_random_key(bits: u64) -> (r: Result<Self, MathError>)
        requires
            4 <= bits,
            bits / 2 <= u32::MAX as u64,
        ensures
            r matches Ok(key) ==> exists|pp: int, qq: int|
                #[trigger] spec_key_from_primes(key, pp, qq) && pp >= 3 && qq >= 3 && pp < pow2(
                    (bits / 2) as nat,
                ) && qq < pow2((bits / 2) as nat) && passes_prime_test(pp, bits / 2)
                    && passes_prime_test(qq, bits / 2),
            r matches Err(e) ==> e == MathError::RetriesExhausted,
    {
        let half: u64 = bits / 2;
        let p = match generate_random_prime(half) {
            Ok(p) => p,
            Err(_) => {
                return Err(MathError::RetriesExhausted);
            },
        };
        let q = match generate_random_prime(half) {
            Ok(q) => q,
            Err(_) => {
                return Err(MathError::RetriesExhausted);
            },
        };
        let key = match RSAKey::generate_keypair(&p, &q) {
            Ok(key) => key,
            Err(_) => {
                return Err(MathError::RetriesExhausted);
            },
        };
        proof {
            assert(spec_key_from_primes(key, big_value(p), big_value(q)) && big_value(p) >= 3
                && big_value(q) >= 3 && big_value(p) < pow2((bits / 2) as nat) && big_value(q)
                < pow2((bits / 2) as nat) && passes_prime_test(big_value(p), half)
                && passes_prime_test(big_value(q), half));
        }
        Ok(key)
    }
}

/// Search for a public exponent: draw uniformly from `[2, phi)` until the
/// draw is coprime to the totient `phi = (p-1)*(q-1)`, giving up with an
/// explicit error after `MAX_SAMPLING_ATTEMPTS` draws.
pub fn rsa_make_e(p: &BigInt, q: &BigInt) -> (r: Result<BigInt, MathError>)
    requires
        big_value(*p) >= 3,
        big_value(*q) >= 3,
    ensures
        r matches Ok(e) ==> 1 < big_value(e) < (big_value(*p) - 1) * (big_value(*q) - 1)
            && spec_gcd(big_value(e), (big_value(*p) - 1) * (big_value(*q) - 1)) == 1,
        r matches Err(err) ==> err == MathError::RetriesExhausted,
{
    let one = big_from_u64(1);
    let two = big_from_u64(2);
    let pm1 = big_sub(p, &one);
    let qm1 = big_sub(q, &one);
    let phi = big_mul(&pm1, &qm1);
    proof {
        assert(big_value(phi) >= 4) by (nonlinear_arith)
            requires
                big_value(phi) == (big_value(*p) - 1) * (big_value(*q) - 1),
                big_value(*p) >= 3,
                big_value(*q) >= 3,
        ;
    }
    let mut rng = fresh_rng();
    let mut attempts: u64 = 0;
    while attempts < MAX_SAMPLING_ATTEMPTS
        invariant
            big_value(one) == 1,
            big_value(two) == 2,
            big_value(phi) == (big_value(*p) - 1) * (big_value(*q) - 1),
            big_value(phi) >= 4,
        decreases MAX_SAMPLING_ATTEMPTS - attempts,
    {
        let e = big_random_range(&mut rng, &two, &phi);
        let g = gcd(&e, &phi);
        if big_eq(&g, &one) {
            return Ok(e);
        }
        attempts = attempts + 1;
    }
    Err(MathError::RetriesExhausted)
}

} // verus!
