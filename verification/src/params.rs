//! System parameters: two safe primes, the modulus `n` and its square,
//! a generator `g` of maximal order, the public check value `k`, and the
//! master trapdoor `mk`; with them, per-party key pairs.

use vstd::prelude::*;

verus! {

use num_bigint::BigUint;
use vstd::arithmetic::power::pow;
use vstd::arithmetic::div_mod::lemma_small_mod;
use vstd::arithmetic::div_mod::lemma_fundamental_div_mod;
use vstd::arithmetic::div_mod::lemma_mod_pos_bound;
use vstd::arithmetic::div_mod::lemma_multiply_divide_lt;
use crate::Error;
use crate::arith::invertible;
use crate::bigint::nat_of;
use crate::bigint::radix_nat;
use crate::bigint::is_prime;
use crate::bigint::big_from_u64;
use crate::bigint::big_eq;
use crate::bigint::big_lt;
use crate::bigint::big_sub;
use crate::bigint::big_mul;
use crate::bigint::big_div;
use crate::bigint::big_rem;
use crate::bigint::big_modpow;
use crate::bigint::big_invm;
use crate::bigint::big_from_bytes_be;
use crate::bigint::big_to_bytes_be;
use crate::rng::Csprng;
use crate::rng::fresh_rng;
use crate::rng::big_random_below;
use crate::rng::gen_safe_prime;

broadcast use vstd::arithmetic::mul::lemma_mul_nonnegative, vstd::arithmetic::mul::lemma_mul_is_commutative;

/// How often a bounded search may retry before it reports
/// `GenerationTimeout`.
pub const GEN_ATTEMPTS: usize = 64;

/// A party's public key: `g^a mod n^2` for that party's private `a`.
#[derive(Clone, Debug)]
pub struct PublicKey(pub(crate) BigUint);

/// A party's private exponent. Never to leave the owning party.
#[derive(Clone, Debug)]
pub struct PrivateKey(pub(crate) BigUint);

/// A freshly generated public/private pair.
#[derive(Clone, Debug)]
pub struct KeyPair {
    pub public: PublicKey,
    pub private: PrivateKey,
}

/// An encryption of one plaintext block: the pair `(A, B)` with
/// `A = g^r mod n^2` and `B = (1 + n m) h^r mod n^2`.
#[derive(Clone, Debug)]
pub struct Ciphertext(pub(crate) BigUint, pub(crate) BigUint);

impl PublicKey {
    /// The number this key holds.
    pub closed spec fn value(self) -> nat {
        nat_of(self.0)
    }

    /// The key as big-endian bytes, for export by an outer codec.
    pub fn to_bytes_be(&self) -> (r: Vec<u8>)
        ensures
            radix_nat(r@, 256) == self.value(),
            r@.len() >= 1,
    {
        big_to_bytes_be(&self.0)
    }

    /// A key read back from big-endian bytes.
    pub fn from_bytes_be(bytes: &[u8]) -> (r: PublicKey)
        ensures
            r.value() == radix_nat(bytes@, 256),
    {
        PublicKey(big_from_bytes_be(bytes))
    }
}

impl PrivateKey {
    /// The number this key holds.
    pub closed spec fn value(self) -> nat {
        nat_of(self.0)
    }

    /// The key as big-endian bytes, for export by an outer codec.
    pub fn to_bytes_be(&self) -> (r: Vec<u8>)
        ensures
            radix_nat(r@, 256) == self.value(),
            r@.len() >= 1,
    {
        big_to_bytes_be(&self.0)
    }

    /// A key read back from big-endian bytes.
    pub fn from_bytes_be(bytes: &[u8]) -> (r: PrivateKey)
        ensures
            r.value() == radix_nat(bytes@, 256),
    {
        PrivateKey(big_from_bytes_be(bytes))
    }
}

impl Ciphertext {
    /// The first component, `A`.
    pub closed spec fn a(self) -> nat {
        nat_of(self.0)
    }

    /// The second component, `B`.
    pub closed spec fn b(self) -> nat {
        nat_of(self.1)
    }

    pub(crate) proof fn lemma_view(self)
        ensures
            self.a() == nat_of(self.0),
            self.b() == nat_of(self.1),
    {
    }
}

impl PublicKey {
    pub(crate) proof fn lemma_view(self)
        ensures
            self.value() == nat_of(self.0),
    {
    }
}

impl PrivateKey {
    pub(crate) proof fn lemma_view(self)
        ensures
            self.value() == nat_of(self.0),
    {
    }
}

/// A prime `p` with `(p - 1) / 2` also prime.
pub open spec fn is_safe_prime(p: nat) -> bool {
    is_prime(p) && is_prime(prime_half(p))
}

/// The prime below half of a safe prime: `(p - 1) / 2`.
pub open spec fn prime_half(p: nat) -> nat {
    ((p - 1) / 2) as nat
}

/// The product of the subset of `{p, pp, q, qq}` selected by the low
/// four bits of `mask`.
pub open spec fn subset_product(mask: u32, p: nat, pp: nat, q: nat, qq: nat) -> nat {
    let e0: nat = 1;
    let e1: nat = if mask & 1 == 1 {
        e0 * p
    } else {
        e0
    };
    let e2: nat = if mask & 2 == 2 {
        e1 * pp
    } else {
        e1
    };
    let e3: nat = if mask & 4 == 4 {
        e2 * q
    } else {
        e2
    };
    if mask & 8 == 8 {
        e3 * qq
    } else {
        e3
    }
}

/// The generator-rejection condition: `g` is not `1`, and no proper
/// non-empty subset product of `{p, pp, q, qq}` (the fourteen masks
/// `1..=14`) sends `g` to `1` modulo `n^2`, so `g` lies in no proper
/// subgroup cut out by those divisors of the group order.
pub open spec fn generator_ok(g: nat, p: nat, pp: nat, q: nat, qq: nat, n2: nat) -> bool {
    &&& g != 1
    &&& forall|mask: u32|
        1 <= mask < 15 ==> #[trigger] (pow(g as int, subset_product(mask, p, pp, q, qq)) % (
        n2 as int)) != 1
}

/// The immutable parameter set of one system instance.
#[derive(Clone)]
pub struct Bcp {
    pub(crate) bitsize: usize,
    pub(crate) n: BigUint,
    pub(crate) k: BigUint,
    pub(crate) g: BigUint,
    pub(crate) mk: BigUint,
    pub(crate) n2: BigUint,
    pub(crate) primes: Ghost<(nat, nat)>,
}

impl Bcp {
    /// The requested prime width in bits.
    pub closed spec fn spec_bitsize(self) -> nat {
        self.bitsize as nat
    }

    /// The first safe prime behind the modulus.
    pub closed spec fn spec_p(self) -> nat {
        self.primes@.0
    }

    /// The second safe prime behind the modulus.
    pub closed spec fn spec_q(self) -> nat {
        self.primes@.1
    }

    /// The modulus `n = p q`.
    pub closed spec fn spec_n(self) -> nat {
        nat_of(self.n)
    }

    /// The squared modulus `n^2`, the working group's modulus.
    pub closed spec fn spec_n2(self) -> nat {
        nat_of(self.n2)
    }

    /// The generator `g`.
    pub closed spec fn spec_g(self) -> nat {
        nat_of(self.g)
    }

    /// The public check value `k = (g^mk mod n^2) div n`.
    pub closed spec fn spec_k(self) -> nat {
        nat_of(self.k)
    }

    /// The master trapdoor `mk = p' q'`.
    pub closed spec fn spec_mk(self) -> nat {
        nat_of(self.mk)
    }

    pub(crate) proof fn lemma_view(self)
        ensures
            self.spec_bitsize() == self.bitsize as nat,
            self.spec_n() == nat_of(self.n),
            self.spec_n2() == nat_of(self.n2),
            self.spec_g() == nat_of(self.g),
            self.spec_k() == nat_of(self.k),
            self.spec_mk() == nat_of(self.mk),
    {
    }

    /// Everything the construction establishes and every later
    /// operation relies on.
    pub open spec fn wf(self) -> bool {
        &&& self.spec_bitsize() >= 8
        &&& is_safe_prime(self.spec_p())
        &&& is_safe_prime(self.spec_q())
        &&& self.spec_p() != self.spec_q()
        &&& self.spec_p() >= pow(2, (self.spec_bitsize() - 1) as nat)
        &&& self.spec_q() >= pow(2, (self.spec_bitsize() - 1) as nat)
        &&& self.spec_n() == self.spec_p() * self.spec_q()
        &&& self.spec_n() > 1
        &&& self.spec_n2() == self.spec_n() * self.spec_n()
        &&& self.spec_mk() == prime_half(self.spec_p()) * prime_half(self.spec_q())
        &&& self.spec_mk() >= 1
        &&& generator_ok(
            self.spec_g(),
            self.spec_p(),
            prime_half(self.spec_p()),
            self.spec_q(),
            prime_half(self.spec_q()),
            self.spec_n2(),
        )
        &&& 2 <= self.spec_g() < self.spec_n2()
        &&& invertible(self.spec_g(), self.spec_n2())
        &&& self.spec_k() < self.spec_n()
        &&& invertible(self.spec_k(), self.spec_n())
        &&& invertible(self.spec_mk(), self.spec_n())
        &&& pow(self.spec_g() as int, self.spec_mk()) % (self.spec_n2() as int) == 1
            + self.spec_k() * self.spec_n()
    }
}

/// Whether every one of the fourteen subgroup-membership checks rejects
/// placing `g` in a proper subgroup: `g` raised to each proper
/// non-empty subset product of `{p, pp, q, qq}` differs from `1`
/// modulo `n^2`.
fn subgroup_checks_pass(
    g: &BigUint,
    p: &BigUint,
    pp: &BigUint,
    q: &BigUint,
    qq: &BigUint,
    n2: &BigUint,
    one: &BigUint,
) -> (ok: bool)
    requires
        nat_of(*n2) >= 2,
        nat_of(*one) == 1,
    ensures
        ok <==> forall|mask: u32|
            1 <= mask < 15 ==> #[trigger] (pow(nat_of(*g) as int, subset_product(
                mask,
                nat_of(*p),
                nat_of(*pp),
                nat_of(*q),
                nat_of(*qq),
            )) % (nat_of(*n2) as int)) != 1,
{
    let mut mask: u32 = 1;
    while mask < 15
        invariant
            1 <= mask <= 15,
            nat_of(*n2) >= 2,
            nat_of(*one) == 1,
            forall|j: u32|
                1 <= j < mask ==> #[trigger] (pow(nat_of(*g) as int, subset_product(
                    j,
                    nat_of(*p),
                    nat_of(*pp),
                    nat_of(*q),
                    nat_of(*qq),
                )) % (nat_of(*n2) as int)) != 1,
        decreases 15 - mask,
    {
        let mut e = big_from_u64(1);
        if mask & 1 == 1 {
            e = big_mul(&e, p);
        }
        if mask & 2 == 2 {
            e = big_mul(&e, pp);
        }
        if mask & 4 == 4 {
            e = big_mul(&e, q);
        }
        if mask & 8 == 8 {
            e = big_mul(&e, qq);
        }
        assert(nat_of(e) == subset_product(mask, nat_of(*p), nat_of(*pp), nat_of(*q), nat_of(*qq)));
        let t = big_modpow(g, &e, n2);
        if big_eq(&t, one) {
            return false;
        }
        mask = mask + 1;
    }
    true
}

/// The rejection-sampling search for a generator of maximal order:
/// draw `r` below `n^2`, square `r - 1`, and accept only a candidate
/// that is neither `0` nor `1`, is invertible modulo `n^2`, and passes
/// all fourteen subgroup checks.
fn select_generator(
    rng: &mut Csprng,
    p: &BigUint,
    pp: &BigUint,
    q: &BigUint,
    qq: &BigUint,
    n2: &BigUint,
) -> (r: Result<BigUint, Error>)
    requires
        nat_of(*n2) >= 2,
    ensures
        r matches Ok(g) ==> {
            &&& 2 <= nat_of(g) < nat_of(*n2)
            &&& invertible(nat_of(g), nat_of(*n2))
            &&& generator_ok(
                nat_of(g),
                nat_of(*p),
                nat_of(*pp),
                nat_of(*q),
                nat_of(*qq),
                nat_of(*n2),
            )
        },
        r matches Err(e) ==> e == Error::GenerationTimeout,
{
    let one = big_from_u64(1);
    let mut attempt: usize = 0;
    while attempt < GEN_ATTEMPTS
        invariant
            nat_of(one) == 1,
            nat_of(*n2) >= 2,
        decreases GEN_ATTEMPTS - attempt,
    {
        let r = big_random_below(rng, n2);
        if big_lt(&one, &r) {
            let rm1 = big_sub(&r, &one);
            let g2 = big_mul(&rm1, &rm1);
            let g = big_rem(&g2, n2);
            if !big_eq(&g, &one) {
                match big_invm(&g, n2) {
                    Some(ig) => {
                        if subgroup_checks_pass(&g, p, pp, q, qq, n2, &one) {
                            proof {
                                if nat_of(g) == 0 {
                                    vstd::arithmetic::mul::lemma_mul_by_zero_is_zero(
                                        nat_of(ig) as int,
                                    );
                                    lemma_small_mod(0, nat_of(*n2));
                                }
                                lemma_mod_pos_bound(nat_of(g2) as int, nat_of(*n2) as int);
                            }
                            return Ok(g);
                        }
                    },
                    None => {},
                }
            }
        }
        attempt = attempt + 1;
    }
    Err(Error::GenerationTimeout)
}

impl Bcp {
    /// Builds a parameter set for the requested prime width: two fresh
    /// safe primes, the modulus and its square, a generator accepted by
    /// the rejection search, the check value `k`, and the trapdoor `mk`.
    /// Every bounded search that cannot settle reports
    /// `GenerationTimeout`.
    pub fn new(bitsize: usize) -> (r: Result<Bcp, Error>)
        requires
            8 <= bitsize,
        ensures
            r matches Ok(b) ==> b.wf() && b.spec_bitsize() == bitsize,
            r matches Err(e) ==> e == Error::GenerationTimeout,
    {
        let mut rng = fresh_rng();
        let one = big_from_u64(1);
        let two = big_from_u64(2);
        let mut attempt: usize = 0;
        while attempt < GEN_ATTEMPTS
            invariant
                nat_of(one) == 1,
                nat_of(two) == 2,
                8 <= bitsize,
            decreases GEN_ATTEMPTS - attempt,
        {
            match Self::try_build(&mut rng, bitsize, &one, &two) {
                Some(b) => {
                    return Ok(b);
                },
                None => {},
            }
            attempt = attempt + 1;
        }
        Err(Error::GenerationTimeout)
    }

    /// One construction attempt; `None` when any of its rejection
    /// checks fires, so that the caller may retry.
    fn try_build(rng: &mut Csprng, bitsize: usize, one: &BigUint, two: &BigUint) -> (r: Option<
        Bcp,
    >)
        requires
            8 <= bitsize,
            nat_of(*one) == 1,
            nat_of(*two) == 2,
        ensures
            r matches Some(b) ==> b.wf() && b.spec_bitsize() == bitsize,
    {
        let p = gen_safe_prime(rng, bitsize);
        let q = gen_safe_prime(rng, bitsize);
        if big_eq(&p, &q) {
            return None;
        }
        proof {
            assert(nat_of(p) >= 2);
            assert(nat_of(q) >= 2);
        }
        let pm1 = big_sub(&p, one);
        let pp = big_div(&pm1, two);
        let qm1 = big_sub(&q, one);
        let qq = big_div(&qm1, two);
        let n = big_mul(&p, &q);
        let n2 = big_mul(&n, &n);
        let mk = big_mul(&pp, &qq);
        proof {
            assert(nat_of(n) >= 4) by (nonlinear_arith)
                requires
                    nat_of(n) == nat_of(p) * nat_of(q),
                    nat_of(p) >= 2,
                    nat_of(q) >= 2,
            ;
            assert(nat_of(n2) >= 16) by (nonlinear_arith)
                requires
                    nat_of(n2) == nat_of(n) * nat_of(n),
                    nat_of(n) >= 4,
            ;
            assert(nat_of(pp) >= 2);
            assert(nat_of(qq) >= 2);
            assert(nat_of(mk) >= 4) by (nonlinear_arith)
                requires
                    nat_of(mk) == nat_of(pp) * nat_of(qq),
                    nat_of(pp) >= 2,
                    nat_of(qq) >= 2,
            ;
        }
        match big_invm(&mk, &n) {
            Some(_) => {},
            None => {
                return None;
            },
        }
        let g = match select_generator(rng, &p, &pp, &q, &qq, &n2) {
            Ok(g) => g,
            Err(_) => {
                return None;
            },
        };
        let t = big_modpow(&g, &mk, &n2);
        let tr = big_rem(&t, &n);
        if !big_eq(&tr, one) {
            return None;
        }
        let k = big_div(&t, &n);
        proof {
            lemma_fundamental_div_mod(nat_of(t) as int, nat_of(n) as int);
            vstd::arithmetic::power::lemma_pow_positive(nat_of(g) as int, nat_of(mk));
            lemma_mod_pos_bound(pow(nat_of(g) as int, nat_of(mk)), nat_of(n2) as int);
            assert(nat_of(t) < nat_of(n2));
            assert((nat_of(t) as int) < (nat_of(n) as int) * (nat_of(n) as int));
            lemma_multiply_divide_lt(nat_of(t) as int, nat_of(n) as int, nat_of(n) as int);
        }
        match big_invm(&k, &n) {
            Some(_) => {},
            None => {
                return None;
            },
        }
        let b = Bcp {
            bitsize,
            n,
            k,
            g,
            mk,
            n2,
            primes: Ghost((nat_of(p), nat_of(q))),
        };
        Some(b)
    }

    /// A fresh key pair under these parameters: the private exponent `a`
    /// is drawn from `[0, n^2 / 2)`, the public key is `g^a mod n^2`.
    pub fn gen_key(&self) -> (kp: KeyPair)
        requires
            self.wf(),
        ensures
            kp.private.value() < self.spec_n2() / 2,
            kp.public.value() == pow(self.spec_g() as int, kp.private.value()) % (
            self.spec_n2() as int),
    {
        proof {
            assert(self.spec_n2() >= 4) by (nonlinear_arith)
                requires
                    self.spec_n2() == self.spec_n() * self.spec_n(),
                    self.spec_n() > 1,
            ;
        }
        let mut rng = fresh_rng();
        let two = big_from_u64(2);
        let a_range = big_div(&self.n2, &two);
        let a = big_random_below(&mut rng, &a_range);
        let h = big_modpow(&self.g, &a, &self.n2);
        KeyPair { public: PublicKey(h), private: PrivateKey(a) }
    }
}

} // verus!
