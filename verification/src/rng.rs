//! Trusted boundary around the entropy collaborator: a ChaCha20 stream
//! cipher seeded from, and reseeded by, the operating system's entropy
//! source. Nothing is promised of the values it yields beyond the bounds
//! each drawing function states.

use vstd::prelude::*;

verus! {

use num_bigint::BigUint;
use num_bigint::RandBigInt;
use num_prime::RandPrime;
use rand::SeedableRng;
use rand::rngs::adapter::ReseedingRng;
use rand::rngs::OsRng;
use rand_chacha::ChaCha20Core;
use vstd::arithmetic::power::pow;
use crate::bigint::nat_of;
use crate::bigint::is_prime;

#[verifier::external_type_specification]
#[verifier::external_body]
pub struct ExChaCha20Core(ChaCha20Core);

/// The random stream the library draws from. Verus sees nothing of its
/// state: no drawing function below promises more of an outcome than a
/// bound, so every caller is verified for every value that comes back.
#[verifier::external_body]
pub struct Csprng {
    inner: ReseedingRng<ChaCha20Core, OsRng>,
}

/// Relies on `rand::SeedableRng::from_entropy`: a ChaCha20 core seeded
/// from the operating system.
#[verifier::external_body]
fn chacha_core_from_entropy() -> ChaCha20Core {
    ChaCha20Core::from_entropy()
}

/// Relies on `rand::rngs::adapter::ReseedingRng::new`: wraps the core so
/// that it is reseeded from the operating system's entropy source.
#[verifier::external_body]
fn reseeding_rng_new(core: ChaCha20Core) -> Csprng {
    Csprng { inner: ReseedingRng::new(core, 0, OsRng) }
}

/// A fresh cryptographically secure random stream.
pub fn fresh_rng() -> Csprng {
    let core = chacha_core_from_entropy();
    reseeding_rng_new(core)
}

/// Relies on `num_bigint::RandBigInt::gen_biguint_below`: a value below
/// the bound, drawn from the generator; panics on a zero bound, so that
/// input is excluded. Nothing else is promised of the outcome.
#[verifier::external_body]
pub fn big_random_below(rng: &mut Csprng, bound: &BigUint) -> (r: BigUint)
    requires
        nat_of(*bound) > 0,
    ensures
        nat_of(r) < nat_of(*bound),
{
    rng.inner.gen_biguint_below(bound)
}

/// Relies on `num_prime::RandPrime::gen_safe_prime_exact` for `BigUint`:
/// a prime `p` with `(p - 1) / 2` also prime, drawn with the top bit of
/// the requested width set, and screened by that crate's strict
/// primality-test configuration.
#[verifier::external_body]
pub fn gen_safe_prime(rng: &mut Csprng, bits: usize) -> (r: BigUint)
    requires
        bits >= 3,
    ensures
        is_prime(nat_of(r)),
        is_prime(((nat_of(r) - 1) / 2) as nat),
        nat_of(r) >= pow(2, (bits - 1) as nat),
{
    rng.inner.gen_safe_prime_exact(bits)
}

} // verus!
