pub mod arith;
pub mod bigint;
pub mod codec;
pub mod crypt;
pub mod laws;
pub mod params;
pub mod rng;

pub use params::Bcp;
pub use params::Ciphertext;
pub use params::KeyPair;
pub use params::PrivateKey;
pub use params::PublicKey;

use vstd::prelude::*;

verus! {

/// The ways an operation of this library can fail.
///
/// None of these arises during normal operation with well-formed
/// parameters and honestly produced ciphertexts.
#[derive(Clone, Copy, Debug, PartialEq, Eq, Structural)]
pub enum Error {
    /// A bounded search (safe-prime or generator selection) hit its
    /// retry ceiling.
    GenerationTimeout,
    /// A plaintext at or above the modulus `n` was handed to the
    /// encryptor.
    InvalidPlaintext,
    /// A serialized ciphertext block lacks the `A!B` separator or
    /// holds a character outside the base-92 alphabet.
    MalformedCiphertext,
    /// A required modular inverse does not exist.
    NonInvertible,
}

} // verus!
