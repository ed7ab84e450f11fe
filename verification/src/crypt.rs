//! Encryption and the two decryption paths.
//!
//! Each executable function's contract pins its result to a spec
//! function that states the computation over the mathematical model;
//! the laws module then proves that the two decryption paths invert
//! encryption.

use vstd::prelude::*;

verus! {

use num_bigint::BigUint;
use vstd::arithmetic::power::pow;
use crate::Error;
use crate::arith::inv_mod;
use crate::arith::invertible;
use crate::arith::lemma_inv_mod_works;
use crate::arith::lemma_inverse_unique;
use crate::bigint::nat_of;
use crate::bigint::big_from_u64;
use crate::bigint::big_lt;
use crate::bigint::big_add;
use crate::bigint::big_sub;
use crate::bigint::big_mul;
use crate::bigint::big_div;
use crate::bigint::big_rem;
use crate::bigint::big_modpow;
use crate::bigint::big_invm;
use crate::params::Bcp;
use crate::params::Ciphertext;
use crate::params::PublicKey;
use crate::params::PrivateKey;
use crate::rng::fresh_rng;
use crate::rng::big_random_below;

broadcast use vstd::arithmetic::mul::lemma_mul_nonnegative, vstd::arithmetic::mul::lemma_mul_is_commutative;

/// The first ciphertext component for randomizer `r`: `g^r mod n^2`.
pub open spec fn cipher_a(bcp: Bcp, r: nat) -> nat {
    (pow(bcp.spec_g() as int, r) % (bcp.spec_n2() as int)) as nat
}

/// The second ciphertext component for plaintext `m`, public key `h`
/// and randomizer `r`: `(1 + n m) h^r mod n^2`, computed as the
/// encryptor does, with each factor reduced first.
pub open spec fn cipher_b(bcp: Bcp, m: nat, h: nat, r: nat) -> nat {
    let n2 = bcp.spec_n2() as int;
    ((((bcp.spec_n() * m + 1) as int % n2) * (pow(h as int, r) % n2)) % n2) as nat
}

/// What the private path computes from a ciphertext `(ca, cb)` and a
/// private exponent `a`, step for step: invert `ca`, raise the inverse
/// to `a`, multiply into `cb`, subtract one modulo `n^2`, and divide the
/// exact multiple of `n` that remains by `n`.
pub open spec fn decrypt_spec(bcp: Bcp, ca: nat, cb: nat, a: nat) -> nat {
    let n2 = bcp.spec_n2() as int;
    let ia = inv_mod(ca, bcp.spec_n2()) as int;
    let u = ((cb as int) * (pow(ia, a) % n2)) % n2;
    let v = (u + n2 - 1) % n2;
    (v / (bcp.spec_n() as int)) as nat
}

/// The discrete exponent the master path recovers from `x`:
/// `((x^mk mod n^2 - 1) div n) k^{-1} mod n`.
pub open spec fn recover_exponent(bcp: Bcp, x: nat) -> nat {
    let n = bcp.spec_n() as int;
    let n2 = bcp.spec_n2() as int;
    let ik = inv_mod(bcp.spec_k(), bcp.spec_n()) as int;
    let t = pow(x as int, bcp.spec_mk()) % n2;
    let t1 = (t + n2 - 1) % n2;
    (((t1 / n) * ik) % n) as nat
}

/// What the master path computes from a ciphertext `(ca, cb)` and the
/// addressee's public key `h`, step for step: recover the exponents of
/// `h` and of `ca`, cancel `g^{a r}` out of `cb`, raise to `mk`,
/// subtract one modulo `n^2`, divide by `n`, and scale by `mk^{-1}`.
pub open spec fn master_decrypt_spec(bcp: Bcp, ca: nat, cb: nat, h: nat) -> nat {
    let n = bcp.spec_n() as int;
    let n2 = bcp.spec_n2() as int;
    let ig = inv_mod(bcp.spec_g(), bcp.spec_n2()) as int;
    let imk = inv_mod(bcp.spec_mk(), bcp.spec_n()) as int;
    let gamma = (recover_exponent(bcp, h) * recover_exponent(bcp, ca)) % bcp.spec_n();
    let x1 = pow(ig, gamma) % n2;
    let x3 = pow((cb as int) * x1, bcp.spec_mk()) % n2;
    let x4 = (x3 + n2 - 1) % n2;
    (((x4 / n) * imk) % n) as nat
}

impl Bcp {
    /// Encrypts a plaintext below `n` under the given public key with a
    /// fresh randomizer `r < n^2`; a plaintext at or above `n` is
    /// rejected as `InvalidPlaintext`.
    pub fn encrypt(&self, m: BigUint, public_key: &PublicKey) -> (r: Result<Ciphertext, Error>)
        requires
            self.wf(),
        ensures
            r is Ok <==> nat_of(m) < self.spec_n(),
            r matches Err(e) ==> e == Error::InvalidPlaintext,
            r matches Ok(c) ==> exists|rr: nat|
                rr < self.spec_n2() && c.a() == cipher_a(*self, rr) && c.b() == #[trigger] cipher_b(
                    *self,
                    nat_of(m),
                    public_key.value(),
                    rr,
                ),
    {
        proof {
            self.lemma_view();
            public_key.lemma_view();
        }
        if !big_lt(&m, &self.n) {
            return Err(Error::InvalidPlaintext);
        }
        let mut rng = fresh_rng();
        let r = big_random_below(&mut rng, &self.n2);
        let a = big_modpow(&self.g, &r, &self.n2);
        let one = big_from_u64(1);
        let nm = big_mul(&self.n, &m);
        let b1 = big_rem(&big_add(&nm, &one), &self.n2);
        let b2 = big_modpow(&public_key.0, &r, &self.n2);
        let b = big_rem(&big_mul(&b1, &b2), &self.n2);
        let c = Ciphertext(a, b);
        proof {
            c.lemma_view();
            assert(c.a() == cipher_a(*self, nat_of(r)));
            assert(c.b() == cipher_b(*self, nat_of(m), public_key.value(), nat_of(r)));
        }
        Ok(c)
    }

    /// Recovers the plaintext of a ciphertext with the private exponent.
    /// Fails with `NonInvertible` exactly when the first ciphertext
    /// component has no inverse modulo `n^2`, which no honestly produced
    /// ciphertext triggers. A mismatched private key is not an error:
    /// the result is then an unrelated number.
    pub fn decrypt(&self, ciphertext: Ciphertext, private_key: &PrivateKey) -> (r: Result<
        BigUint,
        Error,
    >)
        requires
            self.wf(),
        ensures
            r is Ok <==> invertible(ciphertext.a(), self.spec_n2()),
            r matches Err(e) ==> e == Error::NonInvertible,
            r matches Ok(m) ==> nat_of(m) == decrypt_spec(
                *self,
                ciphertext.a(),
                ciphertext.b(),
                private_key.value(),
            ),
    {
        proof {
            self.lemma_view();
            private_key.lemma_view();
            ciphertext.lemma_view();
            assert(self.spec_n2() >= 4) by (nonlinear_arith)
                requires
                    self.spec_n2() == self.spec_n() * self.spec_n(),
                    self.spec_n() > 1,
            ;
        }
        let ia = match big_invm(&ciphertext.0, &self.n2) {
            Some(x) => x,
            None => {
                return Err(Error::NonInvertible);
            },
        };
        proof {
            lemma_inv_mod_works(ciphertext.a(), self.spec_n2());
            lemma_inverse_unique(
                ciphertext.a(),
                self.spec_n2(),
                nat_of(ia),
                inv_mod(ciphertext.a(), self.spec_n2()),
            );
        }
        let t = big_modpow(&ia, &private_key.0, &self.n2);
        let u = big_rem(&big_mul(&ciphertext.1, &t), &self.n2);
        let one = big_from_u64(1);
        let n2m1 = big_sub(&self.n2, &one);
        let v = big_rem(&big_add(&u, &n2m1), &self.n2);
        let m = big_div(&v, &self.n);
        Ok(m)
    }

    /// Recovers the plaintext of a ciphertext from the master trapdoor
    /// and the addressee's *public* key alone: the defining property of
    /// the scheme. Never fails under well-formed parameters. A
    /// mismatched public key is not an error: the result is then an
    /// unrelated number.
    pub fn decrypt_mk(&self, ciphertext: Ciphertext, public_key: &PublicKey) -> (r: BigUint)
        requires
            self.wf(),
        ensures
            nat_of(r) == master_decrypt_spec(
                *self,
                ciphertext.a(),
                ciphertext.b(),
                public_key.value(),
            ),
    {
        proof {
            self.lemma_view();
            public_key.lemma_view();
            ciphertext.lemma_view();
            assert(self.spec_n2() >= 4) by (nonlinear_arith)
                requires
                    self.spec_n2() == self.spec_n() * self.spec_n(),
                    self.spec_n() > 1,
            ;
        }
        let one = big_from_u64(1);
        let imk = match big_invm(&self.mk, &self.n) {
            Some(x) => x,
            None => {
                proof {
                    lemma_inv_mod_works(self.spec_mk(), self.spec_n());
                }
                return one;  // unreachable: `mk` is invertible under `wf`
            },
        };
        let ik = match big_invm(&self.k, &self.n) {
            Some(x) => x,
            None => {
                proof {
                    lemma_inv_mod_works(self.spec_k(), self.spec_n());
                }
                return one;  // unreachable: `k` is invertible under `wf`
            },
        };
        let ig = match big_invm(&self.g, &self.n2) {
            Some(x) => x,
            None => {
                proof {
                    lemma_inv_mod_works(self.spec_g(), self.spec_n2());
                }
                return one;  // unreachable: `g` is invertible under `wf`
            },
        };
        proof {
            lemma_inv_mod_works(self.spec_mk(), self.spec_n());
            lemma_inverse_unique(
                self.spec_mk(),
                self.spec_n(),
                nat_of(imk),
                inv_mod(self.spec_mk(), self.spec_n()),
            );
            lemma_inv_mod_works(self.spec_k(), self.spec_n());
            lemma_inverse_unique(
                self.spec_k(),
                self.spec_n(),
                nat_of(ik),
                inv_mod(self.spec_k(), self.spec_n()),
            );
            lemma_inv_mod_works(self.spec_g(), self.spec_n2());
            lemma_inverse_unique(
                self.spec_g(),
                self.spec_n2(),
                nat_of(ig),
                inv_mod(self.spec_g(), self.spec_n2()),
            );
        }
        let n2m1 = big_sub(&self.n2, &one);

        let th = big_modpow(&public_key.0, &self.mk, &self.n2);
        let th1 = big_rem(&big_add(&th, &n2m1), &self.n2);
        let a_rec = big_rem(&big_mul(&big_div(&th1, &self.n), &ik), &self.n);
        proof {
            assert(nat_of(a_rec) == recover_exponent(*self, public_key.value()));
        }

        let ta = big_modpow(&ciphertext.0, &self.mk, &self.n2);
        let ta1 = big_rem(&big_add(&ta, &n2m1), &self.n2);
        let r_rec = big_rem(&big_mul(&big_div(&ta1, &self.n), &ik), &self.n);
        proof {
            assert(nat_of(r_rec) == recover_exponent(*self, ciphertext.a()));
        }

        let gamma = big_rem(&big_mul(&a_rec, &r_rec), &self.n);
        let x1 = big_modpow(&ig, &gamma, &self.n2);
        let x2 = big_mul(&ciphertext.1, &x1);
        let x3 = big_modpow(&x2, &self.mk, &self.n2);
        let x4 = big_rem(&big_add(&x3, &n2m1), &self.n2);
        let m = big_rem(&big_mul(&big_div(&x4, &self.n), &imk), &self.n);
        m
    }
}

} // verus!
