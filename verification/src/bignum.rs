//! The arbitrary-precision integer substrate.
//!
//! Every arithmetic step of the number-theory code goes through the small
//! wrappers in this module. Each wrapper makes exactly one call into the
//! `num_bigint` crate (or draws one value through `rand`) and states, over
//! the abstraction `big_value`, what that call computes. Everything built on
//! top of these wrappers is verified against those contracts.

use vstd::prelude::*;
use vstd::arithmetic::power2::pow2;

use num_bigint::BigInt;
use num_bigint::RandBigInt;
use rand::rngs::ThreadRng;

verus! {

#[verifier::external_type_specification]
#[verifier::external_body]
pub struct ExBigInt(BigInt);

#[verifier::external_type_specification]
#[verifier::external_body]
pub struct ExThreadRng(ThreadRng);

/// The mathematical integer that a `BigInt` holds. `num_bigint` keeps each
/// value in a normal form (a sign and a magnitude without leading zeros), so
/// every `BigInt` stands for exactly one integer.
pub uninterp spec fn big_value(b: BigInt) -> int;

/// Relies on `BigInt: From<u64>`: the conversion keeps the value.
#[verifier::external_body]
pub(crate) fn big_from_u64(v: u64) -> (r: BigInt)
    ensures
        big_value(r) == v as int,
{
    BigInt::from(v)
}

/// Relies on `BigInt: Clone`: the copy holds the same value.
#[verifier::external_body]
pub(crate) fn big_clone(a: &BigInt) -> (r: BigInt)
    ensures
        big_value(r) == big_value(*a),
{
    a.clone()
}

/// Relies on `BigInt: PartialEq`: values are kept in normal form, so `==`
/// decides equality of the integers held.
#[verifier::external_body]
pub(crate) fn big_eq(a: &BigInt, b: &BigInt) -> (r: bool)
    ensures
        r == (big_value(*a) == big_value(*b)),
{
    a == b
}

/// Relies on `BigInt: PartialOrd`: the order of `BigInt`s is the order of the
/// integers they hold.
#[verifier::external_body]
pub(crate) fn big_lt(a: &BigInt, b: &BigInt) -> (r: bool)
    ensures
        r == (big_value(*a) < big_value(*b)),
{
    a < b
}

/// Relies on `Add for &BigInt`: arbitrary-precision addition.
#[verifier::external_body]
pub(crate) fn big_add(a: &BigInt, b: &BigInt) -> (r: BigInt)
    ensures
        big_value(r) == big_value(*a) + big_value(*b),
{
    a + b
}

/// Relies on `Sub for &BigInt`: arbitrary-precision subtraction.
#[verifier::external_body]
pub(crate) fn big_sub(a: &BigInt, b: &BigInt) -> (r: BigInt)
    ensures
        big_value(r) == big_value(*a) - big_value(*b),
{
    a - b
}

/// Relies on `Neg for BigInt`: arbitrary-precision negation.
#[verifier::external_body]
pub(crate) fn big_neg(a: &BigInt) -> (r: BigInt)
    ensures
        big_value(r) == -big_value(*a),
{
    -a
}

/// Relies on `Mul for &BigInt`: arbitrary-precision multiplication.
#[verifier::external_body]
pub(crate) fn big_mul(a: &BigInt, b: &BigInt) -> (r: BigInt)
    ensures
        big_value(r) == big_value(*a) * big_value(*b),
{
    a * b
}

/// Relies on `Div for &BigInt`: quotient of truncating division, which on
/// non-negative operands agrees with Euclidean division. Restricted to that
/// case; `num_bigint` panics on a zero divisor.
#[verifier::external_body]
pub(crate) fn big_div(a: &BigInt, b: &BigInt) -> (r: BigInt)
    requires
        big_value(*a) >= 0,
        big_value(*b) > 0,
    ensures
        big_value(r) == big_value(*a) / big_value(*b),
{
    a / b
}

/// Relies on `Rem for &BigInt`: remainder of truncating division, whose sign
/// follows the dividend. For a non-negative dividend this is the Euclidean
/// remainder; for a negative one it is the negated remainder of the
/// magnitude. `num_bigint` panics on a zero divisor.
#[verifier::external_body]
pub(crate) fn big_rem(a: &BigInt, b: &BigInt) -> (r: BigInt)
    requires
        big_value(*b) > 0,
    ensures
        big_value(*a) >= 0 ==> big_value(r) == big_value(*a) % big_value(*b),
        big_value(*a) < 0 ==> big_value(r) == -((-big_value(*a)) % big_value(*b)),
{
    a % b
}

/// Relies on `BigInt::modpow`: returns `self ^ exponent mod modulus`, reduced
/// like `mod_floor` into `[0, modulus)` for a positive modulus. It panics on
/// a negative exponent or a zero modulus, which the `requires` rules out.
#[verifier::external_body]
pub(crate) fn big_modpow(base: &BigInt, exponent: &BigInt, modulus: &BigInt) -> (r: BigInt)
    requires
        big_value(*exponent) >= 0,
        big_value(*modulus) >= 1,
    ensures
        big_value(r) == vstd::arithmetic::power::pow(
            big_value(*base),
            big_value(*exponent) as nat,
        ) % big_value(*modulus),
{
    base.modpow(exponent, modulus)
}

/// Relies on `rand::thread_rng`: a handle to the thread-local random number
/// generator. Nothing is promised of the values it will produce.
#[verifier::external_body]
pub(crate) fn fresh_rng() -> ThreadRng {
    rand::thread_rng()
}

/// Relies on `RandBigInt::gen_bigint`: draws a value whose magnitude has at
/// most `bits` bits and whose sign is random; nothing further holds of any
/// single draw.
#[verifier::external_body]
pub(crate) fn big_random_bits(rng: &mut ThreadRng, bits: u64) -> (r: BigInt)
    ensures
        -(pow2(bits as nat) as int) < big_value(r) < pow2(bits as nat) as int,
{
    rng.gen_bigint(bits)
}

/// Relies on `RandBigInt::gen_bigint_range`: draws a value in
/// `[low, high)`; nothing further holds of any single draw. It panics when
/// the range is empty, which the `requires` rules out.
#[verifier::external_body]
pub(crate) fn big_random_range(rng: &mut ThreadRng, low: &BigInt, high: &BigInt) -> (r: BigInt)
    requires
        big_value(*low) < big_value(*high),
    ensures
        big_value(*low) <= big_value(r) < big_value(*high),
{
    rng.gen_bigint_range(low, high)
}

} // verus!
