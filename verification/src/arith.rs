//! Modular arithmetic groundwork: invertibility, the uniqueness of a
//! modular inverse, and the binomial identity `(1 + cn)^e = 1 + ecn
//! (mod n^2)` on which both decryption paths rest.

use vstd::prelude::*;

verus! {

use vstd::arithmetic::power::pow;
use vstd::arithmetic::power::lemma_pow1;
use vstd::arithmetic::power::lemma_pow_adds;
use vstd::arithmetic::div_mod::lemma_small_mod;
use vstd::arithmetic::div_mod::lemma_mul_mod_noop_general;
use vstd::arithmetic::div_mod::lemma_mod_multiples_vanish;
use vstd::arithmetic::div_mod::lemma_fundamental_div_mod;
use vstd::arithmetic::div_mod::lemma_fundamental_div_mod_converse;
use vstd::arithmetic::mul::lemma_mul_strictly_positive;

broadcast use vstd::arithmetic::mul::lemma_mul_nonnegative, vstd::arithmetic::mul::lemma_mul_is_commutative;

/// `a` has a multiplicative inverse modulo `m`.
pub open spec fn invertible(a: nat, m: nat) -> bool {
    exists|x: nat| x < m && #[trigger] ((a * x) % m) == 1
}

/// The multiplicative inverse of `a` modulo `m`, where one exists.
pub open spec fn inv_mod(a: nat, m: nat) -> nat {
    choose|x: nat| x < m && #[trigger] ((a * x) % m) == 1
}

pub proof fn lemma_inv_mod_works(a: nat, m: nat)
    requires
        invertible(a, m),
    ensures
        inv_mod(a, m) < m,
        (a * inv_mod(a, m)) % m == 1,
{
}

/// The inverse modulo `m` is unique among values below `m`.
pub proof fn lemma_inverse_unique(a: nat, m: nat, x: nat, y: nat)
    requires
        m > 0,
        x < m,
        y < m,
        (a * x) % m == 1,
        (a * y) % m == 1,
    ensures
        x == y,
{
    lemma_small_mod(x, m);
    lemma_small_mod(y, m);
    assert((x * ((a * y) % m)) % m == (x * (a * y)) % m) by {
        lemma_mul_mod_noop_general(x as int, (a * y) as int, m as int);
    }
    assert(x * ((a * y) % m) == x);
    assert(x * (a * y) == (a * x) * y) by (nonlinear_arith);
    assert(((a * x) % m * y) % m == ((a * x) * y) % m) by {
        lemma_mul_mod_noop_general((a * x) as int, y as int, m as int);
    }
    assert((a * x) % m * y == y);
}

/// If `ig` inverts `g` modulo `m`, then `pow(ig, e)` inverts
/// `pow(g, e)` modulo `m`.
pub proof fn lemma_pow_inverse(g: nat, ig: nat, e: nat, m: nat)
    requires
        m > 1,
        (g * ig) % m == 1,
    ensures
        (pow(g as int, e) * pow(ig as int, e)) % (m as int) == 1,
    decreases e,
{
    let gi = g as int;
    let igi = ig as int;
    let mi = m as int;
    if e == 0 {
        vstd::arithmetic::power::lemma_pow0(gi);
        vstd::arithmetic::power::lemma_pow0(igi);
        assert(1int % mi == 1) by {
            lemma_small_mod(1, m);
        }
        assert((pow(gi, e) * pow(igi, e)) % mi == 1);
    } else {
        lemma_pow_inverse(g, ig, (e - 1) as nat, m);
        let pg = pow(gi, (e - 1) as nat);
        let pig = pow(igi, (e - 1) as nat);
        lemma_pow_adds(gi, (e - 1) as nat, 1);
        lemma_pow_adds(igi, (e - 1) as nat, 1);
        lemma_pow1(gi);
        lemma_pow1(igi);
        assert(pow(gi, e) * pow(igi, e) == (pg * pig) * (gi * igi)) by {
            lemma_mul_rearrange(pg, gi, pig, igi);
        }
        assert(((pg * pig) * (gi * igi)) % mi == (((pg * pig) % mi) * ((gi * igi) % mi))
            % mi) by {
            lemma_mul_mod_noop_general(pg * pig, gi * igi, mi);
        }
        assert((gi * igi) % mi == 1);
        assert((pg * pig) % mi == 1);
        assert(1int % mi == 1) by {
            lemma_small_mod(1, m);
        }
        assert((pow(gi, e) * pow(igi, e)) % mi == 1);
    }
}

/// A power of a nonnegative base is nonnegative.
pub proof fn lemma_pow_nonneg(b: int, e: nat)
    requires
        b >= 0,
    ensures
        pow(b, e) >= 0,
    decreases e,
{
    if e == 0 {
        vstd::arithmetic::power::lemma_pow0(b);
    } else {
        lemma_pow_nonneg(b, (e - 1) as nat);
        lemma_pow_adds(b, (e - 1) as nat, 1);
        lemma_pow1(b);
        vstd::arithmetic::mul::lemma_mul_nonnegative(pow(b, (e - 1) as nat), b);
    }
}

/// Multiplying by something congruent to one changes nothing modulo `m`.
pub proof fn lemma_cancel_one_mod(x: int, y: int, m: int)
    requires
        m > 0,
        y % m == 1,
    ensures
        (x * y) % m == x % m,
{
    lemma_mul_mod_noop_general(x, y, m);
    assert(x * (y % m) == x);
}

/// For `1 <= t < m`, adding `m - 1` and reducing subtracts one.
pub proof fn lemma_shift_sub_one(t: int, m: int)
    requires
        1 <= t < m,
    ensures
        (t + m - 1) % m == t - 1,
{
    lemma_mod_multiples_vanish(1, t - 1, m);
    lemma_small_mod((t - 1) as nat, m as nat);
}

/// Rearranging a product of four factors.
pub proof fn lemma_mul_rearrange(a: int, b: int, c: int, d: int)
    ensures
        (a * b) * (c * d) == (a * c) * (b * d),
{
    assert((a * b) * (c * d) == (a * c) * (b * d)) by (nonlinear_arith);
}

/// The binomial identity behind the scheme: modulo `n^2`, raising
/// `1 + c*n` to any power only scales `c`.
pub proof fn lemma_pow_one_plus_cn(c: nat, e: nat, n: nat)
    requires
        n > 0,
    ensures
        pow((1 + c * n) as int, e) % ((n * n) as int) == ((1 + e * c * n) as int) % ((n
            * n) as int),
    decreases e,
{
    let n2 = (n * n) as int;
    lemma_mul_strictly_positive(n as int, n as int);
    let base = (1 + c * n) as int;
    if e == 0 {
        vstd::arithmetic::power::lemma_pow0(base);
        assert(e * c == 0) by (nonlinear_arith)
            requires
                e == 0,
        ;
        assert(e * c * n == 0) by (nonlinear_arith)
            requires
                e * c == 0,
        ;
    } else {
        lemma_pow_one_plus_cn(c, (e - 1) as nat, n);
        let prev = pow(base, (e - 1) as nat);
        lemma_pow_adds(base, (e - 1) as nat, 1);
        lemma_pow1(base);
        assert(pow(base, e) == prev * base);
        let p1 = (1 + (e - 1) * c * n) as int;
        assert((prev * base) % n2 == ((prev % n2) * (base % n2)) % n2) by {
            lemma_mul_mod_noop_general(prev, base, n2);
        }
        assert(((p1 % n2) * (base % n2)) % n2 == (p1 * base) % n2) by {
            lemma_mul_mod_noop_general(p1, base, n2);
        }
        let k = ((e - 1) * c) * c;
        assert(p1 * base == n2 * k + ((1 + e * c * n) as int)) by (nonlinear_arith)
            requires
                p1 == 1 + (e - 1) * c * n,
                base == 1 + c * n,
                n2 == n * n,
                k == ((e - 1) * c) * c,
                e >= 1,
        ;
        assert((n2 * k + ((1 + e * c * n) as int)) % n2 == ((1 + e * c * n) as int) % n2) by {
            lemma_mod_multiples_vanish(k, (1 + e * c * n) as int, n2);
        }
    }
}

/// Below `n^2`, a value of the form `1 + t*n` reduces to `1 + (t % n)*n`,
/// and the scaled-down remainder is recovered by subtracting one and
/// dividing by `n`.
pub proof fn lemma_one_plus_tn_mod(t: nat, n: nat)
    requires
        n > 1,
    ensures
        ((1 + t * n) as int) % ((n * n) as int) == 1 + (t % n) * n,
        (((1 + (t % n) * n) - 1) as int) / (n as int) == t % n,
{
    let n2 = (n * n) as int;
    lemma_mul_strictly_positive(n as int, n as int);
    lemma_fundamental_div_mod(t as int, n as int);
    let q = t as int / n as int;
    let r = (t % n) as int;
    assert(t == q * n + r);
    assert(1 + t * n == q * n2 + (1 + r * n)) by (nonlinear_arith)
        requires
            t == q * n + r,
            n2 == n * n,
    ;
    assert(0 <= 1 + r * n < n2) by (nonlinear_arith)
        requires
            0 <= r < n,
            n > 1,
            n2 == n * n,
    ;
    lemma_fundamental_div_mod_converse((1 + t * n) as int, n2, q, 1 + r * n);
    assert((r * n) / (n as int) == r) by {
        lemma_fundamental_div_mod_converse(r * n, n as int, r, 0);
    }
}

} // verus!
