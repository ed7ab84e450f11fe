//! Trusted boundary around the multi-precision integer collaborator.
//!
//! Every arithmetic step of the cryptosystem runs on `num_bigint::BigUint`.
//! The value such a number holds is named by the uninterpreted function
//! `nat_of`; each operation the library calls is wrapped once, with a
//! contract over `nat_of` that states exactly what the collaborator's
//! source shows.

use vstd::prelude::*;

verus! {

use vstd::arithmetic::power::pow;
use num_bigint::BigUint;
use num_modular::ModularUnaryOps;

#[verifier::external_type_specification]
#[verifier::external_body]
pub struct ExBigUint(BigUint);

/// The natural number a `BigUint` holds.
pub uninterp spec fn nat_of(b: BigUint) -> nat;

/// The value of a big-endian digit string in the given base.
pub open spec fn radix_nat(digits: Seq<u8>, base: nat) -> nat
    decreases digits.len(),
{
    if digits.len() == 0 {
        0
    } else {
        radix_nat(digits.drop_last(), base) * base + digits.last() as nat
    }
}

/// Mathematical primality.
pub open spec fn is_prime(p: nat) -> bool {
    p >= 2 && forall|d: nat| 1 < d < p ==> #[trigger] (p % d) != 0
}

/// Relies on `BigUint: From<u64>`: the number holds the given value.
#[verifier::external_body]
pub fn big_from_u64(x: u64) -> (r: BigUint)
    ensures
        nat_of(r) == x,
{
    BigUint::from(x)
}

/// Relies on `BigUint: Clone`: the copy holds the same value.
pub assume_specification[ <BigUint as Clone>::clone ](a: &BigUint) -> (r: BigUint)
    ensures
        nat_of(r) == nat_of(*a),
;

/// Relies on `BigUint: PartialEq`: equal exactly when the values are equal.
#[verifier::external_body]
pub fn big_eq(a: &BigUint, b: &BigUint) -> (r: bool)
    ensures
        r <==> nat_of(*a) == nat_of(*b),
{
    a == b
}

/// Relies on `BigUint: Ord`: the order of the values.
#[verifier::external_body]
pub fn big_lt(a: &BigUint, b: &BigUint) -> (r: bool)
    ensures
        r <==> nat_of(*a) < nat_of(*b),
{
    a < b
}

/// Relies on `Add for &BigUint`.
#[verifier::external_body]
pub fn big_add(a: &BigUint, b: &BigUint) -> (r: BigUint)
    ensures
        nat_of(r) == nat_of(*a) + nat_of(*b),
{
    a + b
}

/// Relies on `Sub for &BigUint`, which panics when the result would be
/// negative: the inputs are restricted so that it cannot.
#[verifier::external_body]
pub fn big_sub(a: &BigUint, b: &BigUint) -> (r: BigUint)
    requires
        nat_of(*b) <= nat_of(*a),
    ensures
        nat_of(r) == nat_of(*a) - nat_of(*b),
{
    a - b
}

/// Relies on `Mul for &BigUint`.
#[verifier::external_body]
pub fn big_mul(a: &BigUint, b: &BigUint) -> (r: BigUint)
    ensures
        nat_of(r) == nat_of(*a) * nat_of(*b),
{
    a * b
}

/// Relies on `Div for &BigUint`: floor division; panics on a zero
/// divisor, so that input is excluded.
#[verifier::external_body]
pub fn big_div(a: &BigUint, b: &BigUint) -> (r: BigUint)
    requires
        nat_of(*b) > 0,
    ensures
        nat_of(r) == nat_of(*a) / nat_of(*b),
{
    a / b
}

/// Relies on `Rem for &BigUint`: the remainder of floor division; panics
/// on a zero divisor, so that input is excluded.
#[verifier::external_body]
pub fn big_rem(a: &BigUint, b: &BigUint) -> (r: BigUint)
    requires
        nat_of(*b) > 0,
    ensures
        nat_of(r) == nat_of(*a) % nat_of(*b),
{
    a % b
}

/// Relies on `BigUint::modpow`: `base^exp mod m`; panics on a zero
/// modulus, so that input is excluded.
#[verifier::external_body]
pub fn big_modpow(base: &BigUint, exp: &BigUint, m: &BigUint) -> (r: BigUint)
    requires
        nat_of(*m) > 0,
    ensures
        nat_of(r) == pow(nat_of(*base) as int, nat_of(*exp)) % (nat_of(*m) as int),
{
    base.modpow(exp, m)
}

/// Relies on `num_modular::ModularUnaryOps::invm` for `BigUint`: the
/// modular inverse in `[0, m)` when one exists, `None` when none does.
#[verifier::external_body]
pub fn big_invm(a: &BigUint, m: &BigUint) -> (r: Option<BigUint>)
    requires
        nat_of(*m) >= 2,
    ensures
        r matches Some(x) ==> nat_of(x) < nat_of(*m) && (nat_of(*a) * nat_of(x)) % nat_of(*m)
            == 1,
        r is None ==> forall|y: nat| #[trigger] ((nat_of(*a) * y) % nat_of(*m)) != 1,
{
    a.clone().invm(m)
}

/// Relies on `BigUint::from_bytes_be`: the big-endian base-256 value of
/// the bytes.
#[verifier::external_body]
pub fn big_from_bytes_be(bytes: &[u8]) -> (r: BigUint)
    ensures
        nat_of(r) == radix_nat(bytes@, 256),
{
    BigUint::from_bytes_be(bytes)
}

/// Relies on `BigUint::to_bytes_be`: the shortest big-endian base-256
/// digit string of the value (a single zero byte for zero).
#[verifier::external_body]
pub fn big_to_bytes_be(a: &BigUint) -> (r: Vec<u8>)
    ensures
        radix_nat(r@, 256) == nat_of(*a),
        r@.len() >= 1,
        nat_of(*a) == 0 ==> r@ == seq![0u8],
        nat_of(*a) > 0 ==> r@[0] != 0,
{
    a.to_bytes_be()
}

/// Relies on `BigUint::to_radix_be`: the shortest big-endian digit string
/// of the value in the given base (a single zero digit for zero).
#[verifier::external_body]
pub fn big_to_radix_be(a: &BigUint, base: u32) -> (r: Vec<u8>)
    requires
        2 <= base < 256,
    ensures
        radix_nat(r@, base as nat) == nat_of(*a),
        forall|i: int| 0 <= i < r@.len() ==> #[trigger] r@[i] < base,
        r@.len() >= 1,
        nat_of(*a) == 0 ==> r@ == seq![0u8],
        nat_of(*a) > 0 ==> r@[0] != 0,
{
    a.to_radix_be(base)
}

/// Relies on `BigUint::from_radix_be`: the big-endian value of the digit
/// string, or `None` exactly when some digit is at or above the base.
#[verifier::external_body]
pub fn big_from_radix_be(digits: &[u8], base: u32) -> (r: Option<BigUint>)
    requires
        2 <= base < 256,
    ensures
        r is Some <==> (forall|i: int| 0 <= i < digits@.len() ==> #[trigger] digits@[i] < base),
        r matches Some(v) ==> nat_of(v) == radix_nat(digits@, base as nat),
{
    BigUint::from_radix_be(digits, base)
}

} // verus!
