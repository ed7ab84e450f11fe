//! The laws of the scheme, proved from the contracts in `params` and
//! `crypt`: an honest encryption decrypts to its plaintext along the
//! private path and along the master path, for every key pair and every
//! randomizer.

use vstd::prelude::*;

verus! {

use vstd::arithmetic::power::pow;
use vstd::arithmetic::power::lemma_pow_mod_noop;
use vstd::arithmetic::power::lemma_pow_multiplies;
use vstd::arithmetic::power::lemma_pow_positive;
use vstd::arithmetic::div_mod::lemma_small_mod;
use vstd::arithmetic::div_mod::lemma_mod_pos_bound;
use vstd::arithmetic::div_mod::lemma_mul_mod_noop_general;
use vstd::arithmetic::div_mod::lemma_div_multiples_vanish;
use crate::arith::invertible;
use crate::Error;
use crate::arith::inv_mod;
use crate::arith::lemma_inv_mod_works;
use crate::arith::lemma_pow_inverse;
use crate::arith::lemma_pow_nonneg;
use crate::arith::lemma_cancel_one_mod;
use crate::arith::lemma_shift_sub_one;
use crate::arith::lemma_pow_one_plus_cn;
use crate::arith::lemma_one_plus_tn_mod;
use crate::params::Bcp;
use crate::crypt::cipher_a;
use crate::crypt::cipher_b;
use crate::crypt::decrypt_spec;
use crate::crypt::master_decrypt_spec;
use crate::crypt::recover_exponent;
use crate::codec::block_chars;
use crate::codec::bytes256;
use crate::codec::chars_of;
use crate::codec::chunk_of;
use crate::codec::decode_block;
use crate::codec::decode_mk;
use crate::codec::decode_priv;
use crate::codec::digits_of;
use crate::codec::digits_valid;
use crate::codec::lemma_bytes256_unique;
use crate::codec::lemma_radix_bound;
use crate::codec::lemma_split_at_index;
use crate::codec::num_chunks;
use crate::codec::render_from;
use crate::codec::render_ok;
use crate::codec::value_of_chars;
use crate::bigint::radix_nat;

broadcast use vstd::arithmetic::mul::lemma_mul_nonnegative, vstd::arithmetic::mul::lemma_mul_is_commutative;

/// The first ciphertext component of an honest encryption is invertible
/// modulo `n^2`: `pow(ig, r) mod n^2` inverts it, for `ig` the inverse
/// of `g`.
pub proof fn lemma_cipher_a_invertible(bcp: Bcp, r: nat)
    requires
        bcp.wf(),
    ensures
        invertible(cipher_a(bcp, r), bcp.spec_n2()),
        (cipher_a(bcp, r) * inv_mod(cipher_a(bcp, r), bcp.spec_n2())) % bcp.spec_n2() == 1,
        inv_mod(cipher_a(bcp, r), bcp.spec_n2()) < bcp.spec_n2(),
{
    let g = bcp.spec_g();
    let n2 = bcp.spec_n2();
    let gi = g as int;
    let n2i = n2 as int;
    lemma_inv_mod_works(g, n2);
    let ig = inv_mod(g, n2);
    if ig == 0 {
        vstd::arithmetic::mul::lemma_mul_by_zero_is_zero(gi);
        lemma_small_mod(0, n2);
        assert(false);
    }
    lemma_pow_positive(gi, r);
    lemma_mod_pos_bound(pow(gi, r), n2i);
    lemma_pow_positive(ig as int, r);
    lemma_mod_pos_bound(pow(ig as int, r), n2i);
    let ca = cipher_a(bcp, r);
    let w = (pow(ig as int, r) % n2i) as nat;
    lemma_pow_inverse(g, ig, r, n2);
    lemma_mul_mod_noop_general(pow(gi, r), pow(ig as int, r), n2i);
    assert((ca * w) % n2 == 1);
    assert(invertible(ca, n2));
    lemma_inv_mod_works(ca, n2);
}

/// Round trip along the private path: an honest encryption of `m`
/// under the public key `h = g^a mod n^2`, made with any randomizer
/// `r`, decrypts to `m` under the private exponent `a`.
pub proof fn lemma_private_round_trip(bcp: Bcp, a: nat, h: nat, m: nat, r: nat)
    requires
        bcp.wf(),
        m < bcp.spec_n(),
        h == pow(bcp.spec_g() as int, a) % (bcp.spec_n2() as int),
    ensures
        invertible(cipher_a(bcp, r), bcp.spec_n2()),
        decrypt_spec(bcp, cipher_a(bcp, r), cipher_b(bcp, m, h, r), a) == m,
{
    let g = bcp.spec_g();
    let n = bcp.spec_n();
    let n2 = bcp.spec_n2();
    let gi = g as int;
    let ni = n as int;
    let n2i = n2 as int;
    assert(n2 >= 4 && n * m + 1 < n2) by (nonlinear_arith)
        requires
            n2 == n * n,
            n > 1,
            m < n,
    ;
    lemma_cipher_a_invertible(bcp, r);
    let ca = cipher_a(bcp, r);
    let ia = inv_mod(ca, n2);
    let iai = ia as int;
    lemma_pow_positive(gi, r);
    lemma_mod_pos_bound(pow(gi, r), n2i);

    // pow(h, r) and pow(g, a * r) agree modulo n^2
    let hi = h as int;
    lemma_pow_mod_noop(pow(gi, a), r, n2i);
    lemma_pow_multiplies(gi, a, r);
    assert(pow(hi, r) % n2i == pow(gi, a * r) % n2i);

    // pow(ia, a) undoes pow(g, a * r) modulo n^2
    lemma_pow_mod_noop(pow(gi, r), a, n2i);
    lemma_pow_multiplies(gi, r, a);
    assert(pow(ca as int, a) % n2i == pow(gi, r * a) % n2i);
    lemma_pow_inverse(ca, ia, a, n2);
    let pia = pow(iai, a);
    assert((pow(gi, a * r) * pia) % n2i == 1) by {
        lemma_mul_mod_noop_general(pow(gi, a * r), pia, n2i);
        lemma_mul_mod_noop_general(pow(ca as int, a), pia, n2i);
        assert(a * r == r * a);
    }

    // normalize cb to ((1 + n m) * pow(h, r)) % n^2
    let p = (n * m + 1) as int;
    let bigh = pow(hi, r);
    lemma_pow_nonneg(hi, r);
    let cb = cipher_b(bcp, m, h, r);
    lemma_mul_mod_noop_general(p, bigh, n2i);
    assert(cb as int == (p * bigh) % n2i);
    lemma_mod_pos_bound(p * bigh, n2i);

    // normalize u to (p * (pow(h,r) * pow(ia,a))) % n^2 and collapse
    lemma_pow_nonneg(iai, a);
    lemma_mod_pos_bound(pia, n2i);
    lemma_small_mod(cb, n2);
    lemma_mul_mod_noop_general(cb as int, pia, n2i);
    let u = ((cb as int) * (pia % n2i)) % n2i;
    assert(u == ((cb as int) * pia) % n2i);
    lemma_mul_mod_noop_general(p * bigh, pia, n2i);
    assert(u == ((p * bigh) * pia) % n2i);
    assert((p * bigh) * pia == p * (bigh * pia)) by (nonlinear_arith);
    assert((bigh * pia) % n2i == 1) by {
        lemma_mul_mod_noop_general(bigh, pia, n2i);
        lemma_mul_mod_noop_general(pow(gi, a * r), pia, n2i);
    }
    lemma_cancel_one_mod(p, bigh * pia, n2i);
    assert(u == p % n2i);
    lemma_small_mod((n * m + 1) as nat, n2);
    assert(u == p);

    // subtract one, divide by n
    lemma_shift_sub_one(p, n2i);
    assert((u + n2i - 1) % n2i == (n * m) as int);
    lemma_div_multiples_vanish(m as int, ni);
    assert(((n * m) as int) / ni == m as int);
}

/// The master path's exponent recovery: applied to `g^e mod n^2`, it
/// returns `e mod n`. This is where the check value `k` earns its keep:
/// `g^mk = 1 + k n (mod n^2)`, so `g^(e mk) = 1 + (e k mod n) n`, and
/// the factor `k` is divided back out by `k^{-1}`.
pub proof fn lemma_recover_exponent(bcp: Bcp, e: nat, x: nat)
    requires
        bcp.wf(),
        x == pow(bcp.spec_g() as int, e) % (bcp.spec_n2() as int),
    ensures
        recover_exponent(bcp, x) == e % bcp.spec_n(),
{
    let g = bcp.spec_g();
    let n = bcp.spec_n();
    let n2 = bcp.spec_n2();
    let k = bcp.spec_k();
    let mk = bcp.spec_mk();
    let gi = g as int;
    let ni = n as int;
    let n2i = n2 as int;
    lemma_inv_mod_works(k, n);
    let ik = inv_mod(k, n);

    // pow(x, mk) mod n^2 == pow(1 + k n, e) mod n^2
    lemma_pow_positive(gi, e);
    lemma_mod_pos_bound(pow(gi, e), n2i);
    lemma_pow_mod_noop(pow(gi, e), mk, n2i);
    lemma_pow_multiplies(gi, e, mk);
    lemma_pow_multiplies(gi, mk, e);
    assert(e * mk == mk * e);
    lemma_pow_mod_noop(pow(gi, mk), e, n2i);
    let t = pow(x as int, mk) % n2i;
    assert(t == pow((1 + k * n) as int, e) % n2i);

    // the binomial identity collapses it to 1 + (e k mod n) n
    lemma_pow_one_plus_cn(k, e, n);
    lemma_one_plus_tn_mod(e * k, n);
    assert(t == 1 + ((e * k) % n) * n);
    assert(1 + ((e * k) % n) * n < n2i) by (nonlinear_arith)
        requires
            (e * k) % n < n,
            n > 1,
            n2i == n * n,
    ;
    lemma_shift_sub_one(t, n2i);
    assert((t + n2i - 1) % n2i == ((e * k) % n) * n);

    // divide by n, multiply by the inverse of k
    assert((((e * k) % n) * n) as int / ni == ((e * k) % n) as int) by {
        lemma_div_multiples_vanish(((e * k) % n) as int, ni);
    }
    assert(((((e * k) % n) * ik) % n) as int == e % n) by {
        lemma_mul_mod_noop_general((e * k) as int, ik as int, ni);
        assert((e * k) * ik == e * (k * ik)) by (nonlinear_arith);
        lemma_cancel_one_mod(e as int, (k * ik) as int, ni);
    }
}

/// Round trip along the master path: an honest encryption of `m` under
/// the public key `h = g^a mod n^2`, made with any randomizer `r`,
/// decrypts to `m` from the master trapdoor and `h` alone, for every
/// key pair generated under the parameter set.
pub proof fn lemma_master_round_trip(bcp: Bcp, a: nat, h: nat, m: nat, r: nat)
    requires
        bcp.wf(),
        m < bcp.spec_n(),
        h == pow(bcp.spec_g() as int, a) % (bcp.spec_n2() as int),
    ensures
        master_decrypt_spec(bcp, cipher_a(bcp, r), cipher_b(bcp, m, h, r), h) == m,
{
    let g = bcp.spec_g();
    let n = bcp.spec_n();
    let n2 = bcp.spec_n2();
    let k = bcp.spec_k();
    let mk = bcp.spec_mk();
    let gi = g as int;
    let ni = n as int;
    let n2i = n2 as int;
    let hi = h as int;
    assert(n2 >= 4 && n * m + 1 < n2) by (nonlinear_arith)
        requires
            n2 == n * n,
            n > 1,
            m < n,
    ;
    lemma_inv_mod_works(g, n2);
    lemma_inv_mod_works(mk, n);
    let ig = inv_mod(g, n2);
    let igi = ig as int;
    let imk = inv_mod(mk, n);
    let ca = cipher_a(bcp, r);
    let cb = cipher_b(bcp, m, h, r);
    lemma_pow_positive(gi, r);
    lemma_mod_pos_bound(pow(gi, r), n2i);

    // both recovered exponents, and the randomizer-cancelling gamma
    lemma_recover_exponent(bcp, a, h);
    lemma_recover_exponent(bcp, r, ca);
    let gamma = ((a % n) * (r % n)) % n;
    assert(gamma == (a * r) % n) by {
        lemma_mul_mod_noop_general(a as int, r as int, ni);
    }
    let s = a * r;
    let d = s / n;
    let dn = d * n;
    vstd::arithmetic::div_mod::lemma_fundamental_div_mod(s as int, ni);
    assert(s == dn + gamma);

    // normalize cb to ((1 + n m) * pow(g, a r)) % n^2, as before
    let p = (n * m + 1) as int;
    let bigh = pow(hi, r);
    lemma_pow_nonneg(hi, r);
    lemma_pow_mod_noop(pow(gi, a), r, n2i);
    lemma_pow_multiplies(gi, a, r);
    assert(pow(hi, r) % n2i == pow(gi, s) % n2i);
    lemma_mul_mod_noop_general(p, bigh, n2i);
    assert(cb as int == (p * bigh) % n2i);
    lemma_mod_pos_bound(p * bigh, n2i);

    // Y := (cb * (pow(ig, gamma) mod n^2)) mod n^2 collapses to
    // (p * pow(g, d n)) mod n^2
    let z = pow(igi, gamma);
    lemma_pow_nonneg(igi, gamma);
    lemma_mod_pos_bound(z, n2i);
    let x1 = z % n2i;
    let y = ((cb as int) * x1) % n2i;
    lemma_small_mod(cb, n2);
    lemma_mul_mod_noop_general(cb as int, z, n2i);
    assert(y == ((cb as int) * z) % n2i);
    lemma_mul_mod_noop_general(p * bigh, z, n2i);
    assert(y == ((p * bigh) * z) % n2i);
    assert((p * bigh) * z == p * (bigh * z)) by (nonlinear_arith);
    assert((bigh * z) % n2i == pow(gi, dn) % n2i) by {
        lemma_mul_mod_noop_general(bigh, z, n2i);
        lemma_mul_mod_noop_general(pow(gi, s), z, n2i);
        vstd::arithmetic::power::lemma_pow_adds(gi, dn, gamma);
        assert((pow(gi, dn) * pow(gi, gamma)) * z == pow(gi, dn) * (pow(gi, gamma) * z))
            by (nonlinear_arith);
        lemma_pow_inverse(g, ig, gamma, n2);
        lemma_cancel_one_mod(pow(gi, dn), pow(gi, gamma) * z, n2i);
    }
    lemma_mul_mod_noop_general(p, bigh * z, n2i);
    lemma_pow_nonneg(gi, dn);
    lemma_mul_mod_noop_general(p, pow(gi, dn), n2i);
    assert(y == (p * pow(gi, dn)) % n2i);

    // raising Y to mk kills the g-part and scales m by mk
    let x3 = pow((cb as int) * x1, mk) % n2i;
    lemma_pow_mod_noop((cb as int) * x1, mk, n2i);
    lemma_pow_mod_noop(p * pow(gi, dn), mk, n2i);
    assert(x3 == pow(p * pow(gi, dn), mk) % n2i);
    vstd::arithmetic::power::lemma_pow_distributes(p, pow(gi, dn), mk);
    assert(x3 == (pow(p, mk) * pow(pow(gi, dn), mk)) % n2i);
    assert(pow(pow(gi, dn), mk) % n2i == 1) by {
        lemma_pow_multiplies(gi, mk, dn);
        lemma_pow_multiplies(gi, dn, mk);
        assert(mk * dn == dn * mk);
        lemma_pow_mod_noop(pow(gi, mk), dn, n2i);
        lemma_pow_one_plus_cn(k, dn, n);
        assert((1 + dn * k * n) as int == n2i * ((d * k) as int) + 1) by (nonlinear_arith)
            requires
                dn == d * n,
                n2i == n * n,
        ;
        vstd::arithmetic::div_mod::lemma_mod_multiples_vanish((d * k) as int, 1, n2i);
        lemma_small_mod(1, n2);
    }
    lemma_pow_nonneg(p, mk);
    lemma_cancel_one_mod(pow(p, mk), pow(pow(gi, dn), mk), n2i);
    lemma_mul_mod_noop_general(pow(p, mk), pow(pow(gi, dn), mk), n2i);
    assert(x3 == pow(p, mk) % n2i);

    // the binomial identity one last time: x3 == 1 + (mk m mod n) n
    lemma_pow_one_plus_cn(m, mk, n);
    assert(p == (1 + m * n) as int);
    lemma_one_plus_tn_mod(mk * m, n);
    assert(x3 == 1 + ((mk * m) % n) * n);
    assert(1 + ((mk * m) % n) * n < n2i) by (nonlinear_arith)
        requires
            (mk * m) % n < n,
            n > 1,
            n2i == n * n,
    ;
    lemma_shift_sub_one(x3, n2i);
    assert((x3 + n2i - 1) % n2i == ((mk * m) % n) * n);
    assert((((mk * m) % n) * n) as int / ni == ((mk * m) % n) as int) by {
        lemma_div_multiples_vanish(((mk * m) % n) as int, ni);
    }

    // divide mk back out
    assert(((((mk * m) % n) * imk) % n) as int == m % n) by {
        lemma_mul_mod_noop_general((mk * m) as int, imk as int, ni);
        assert((mk * m) * imk == m * (mk * imk)) by (nonlinear_arith);
        lemma_cancel_one_mod(m as int, (mk * imk) as int, ni);
    }
    lemma_small_mod(m, n);
}

/// The characters of a digit string: within the alphabet, above both
/// separators, and reading back as the digits' value.
proof fn lemma_chars_props(ds: Seq<u8>)
    requires
        forall|i: int| 0 <= i < ds.len() ==> #[trigger] ds[i] < 92,
    ensures
        chars_of(ds).len() == ds.len(),
        digits_valid(chars_of(ds)),
        forall|i: int| 0 <= i < ds.len() ==> #[trigger] chars_of(ds)[i] >= 34,
        value_of_chars(chars_of(ds)) == radix_nat(ds, 92),
{
    let cs = chars_of(ds);
    assert forall|i: int| 0 <= i < cs.len() implies 34 <= #[trigger] cs[i] < 126 by {
        assert(cs[i] == (ds[i] + 34) as u8);
    }
    assert(cs.map_values(|c: u8| (c - 34) as u8) =~= ds);
}

/// Parsing a rendered block gives back the two numbers its digit
/// strings write.
proof fn lemma_decode_block_of(da: Seq<u8>, db: Seq<u8>, va: nat, vb: nat)
    requires
        digits_of(da, va),
        digits_of(db, vb),
    ensures
        decode_block(block_chars(da, db)) == Ok::<(nat, nat), Error>((va, vb)),
{
    lemma_chars_props(da);
    lemma_chars_props(db);
    let ca = chars_of(da);
    let cb = chars_of(db);
    let blk = block_chars(da, db);
    assert(blk.len() == ca.len() + 1 + cb.len());
    assert(forall|t: int| 0 <= t < ca.len() ==> blk[t] == ca[t]);
    assert(blk[ca.len() as int] == 33);
    lemma_split_at_index(blk, 33, ca.len() as int);
    assert(blk.subrange(0, ca.len() as int) =~= ca);
    assert(blk.subrange(ca.len() as int + 1, blk.len() as int) =~= cb);
}

/// No byte of a rendered block is the space separator.
proof fn lemma_block_no_space(da: Seq<u8>, db: Seq<u8>)
    requires
        forall|i: int| 0 <= i < da.len() ==> #[trigger] da[i] < 92,
        forall|i: int| 0 <= i < db.len() ==> #[trigger] db[i] < 92,
    ensures
        forall|t: int| 0 <= t < block_chars(da, db).len() ==> #[trigger] block_chars(da, db)[t]
            != 32,
{
    lemma_chars_props(da);
    lemma_chars_props(db);
    let blk = block_chars(da, db);
    assert forall|t: int| 0 <= t < blk.len() implies #[trigger] blk[t] != 32 by {
        if t < chars_of(da).len() {
            assert(blk[t] == chars_of(da)[t]);
        } else if t == chars_of(da).len() {
            assert(blk[t] == 33);
        } else {
            assert(blk[t] == chars_of(db)[t - chars_of(da).len() - 1]);
        }
    }
}

/// Round trip of the text codec from chunk `i` on, along both
/// decryption paths.
proof fn lemma_text_round_trip_from(
    bcp: Bcp,
    a: nat,
    h: nat,
    text: Seq<u8>,
    i: nat,
    rs: Seq<nat>,
    das: Seq<Seq<u8>>,
    dbs: Seq<Seq<u8>>,
)
    requires
        bcp.wf(),
        h == pow(bcp.spec_g() as int, a) % (bcp.spec_n2() as int),
        i * (bcp.spec_bitsize() / 8) < text.len(),
        forall|t: int|
            0 <= t < text.len() && t % ((bcp.spec_bitsize() / 8) as int) == 0 ==> text[t] != 0,
        rs.len() == num_chunks(
            (text.len() - i * (bcp.spec_bitsize() / 8)) as nat,
            bcp.spec_bitsize() / 8,
        ),
        render_ok(bcp, text, h, i, rs, das, dbs),
    ensures
        decode_priv(bcp, render_from(bcp, text, h, i, rs, das, dbs), a) == Ok::<Seq<u8>, Error>(
            text.subrange((i * (bcp.spec_bitsize() / 8)) as int, text.len() as int),
        ),
        decode_mk(bcp, render_from(bcp, text, h, i, rs, das, dbs), h) == Ok::<Seq<u8>, Error>(
            text.subrange((i * (bcp.spec_bitsize() / 8)) as int, text.len() as int),
        ),
    decreases rs.len(),
{
    let cs = bcp.spec_bitsize() / 8;
    let csi = cs as int;
    let lo = (i * cs) as int;
    let len = text.len() as int;
    let ll = len - lo;
    assert(cs >= 1);

    // this block and its numbers
    assert(rs.len() >= 1) by {
        vstd::arithmetic::div_mod::lemma_div_non_zero(ll + csi - 1, csi);
    }
    let chunk = chunk_of(text, cs, i);
    let m = radix_nat(chunk, 256);
    let va = cipher_a(bcp, rs[0]);
    let vb = cipher_b(bcp, m, h, rs[0]);
    let blk = block_chars(das[0], dbs[0]);
    assert(digits_of(das[0], va) && digits_of(dbs[0], vb) && rs[0] < bcp.spec_n2());
    lemma_decode_block_of(das[0], dbs[0], va, vb);
    lemma_block_no_space(das[0], dbs[0]);

    // the chunk is short enough, nonempty, and leads with a nonzero byte
    assert((i + 1) * cs == i * cs + cs) by (nonlinear_arith);
    assert(chunk.len() <= cs && chunk.len() >= 1);
    assert(m < bcp.spec_n()) by {
        lemma_radix_bound(chunk, 256);
        bcp.lemma_chunk_fits(chunk.len());
        vstd::arithmetic::power::lemma_pow_increases(256, chunk.len(), cs);
    }
    assert(lo % csi == 0) by {
        vstd::arithmetic::div_mod::lemma_mod_multiples_basic(i as int, csi);
    }
    assert(chunk[0] == text[lo] && text[lo] != 0);

    // this block decrypts to the chunk, along either path
    lemma_private_round_trip(bcp, a, h, m, rs[0]);
    lemma_master_round_trip(bcp, a, h, m, rs[0]);
    assert(bytes256(decrypt_spec(bcp, va, vb, a)) =~= chunk && bytes256(
        master_decrypt_spec(bcp, va, vb, h),
    ) =~= chunk) by {
        lemma_bytes256_unique(chunk);
    }

    let s = render_from(bcp, text, h, i, rs, das, dbs);
    if rs.len() == 1 {
        assert(s == blk);
        lemma_split_at_index(s, 32, s.len() as int);
        // one chunk left: it runs to the end of the text
        assert(ll <= csi) by {
            vstd::arithmetic::div_mod::lemma_fundamental_div_mod(ll + csi - 1, csi);
            assert(csi * ((ll + csi - 1) / csi) == csi) by (nonlinear_arith)
                requires
                    (ll + csi - 1) / csi == 1,
            ;
        }
        assert(chunk =~= text.subrange(lo, len));
    } else {
        let rest = render_from(bcp, text, h, i + 1, rs.drop_first(), das.drop_first(),
            dbs.drop_first());
        assert(s == blk + seq![32u8] + rest);
        assert(forall|t: int| 0 <= t < blk.len() ==> s[t] == blk[t] && #[trigger] s[t] != 32);
        assert(s[blk.len() as int] == 32);
        lemma_split_at_index(s, 32, blk.len() as int);
        assert(s.subrange(0, blk.len() as int) =~= blk);
        assert(s.subrange(blk.len() as int + 1, s.len() as int) =~= rest);

        // more than one chunk left: the text runs past this one
        assert(ll > csi) by {
            vstd::arithmetic::div_mod::lemma_fundamental_div_mod(ll + csi - 1, csi);
            assert(csi * ((ll + csi - 1) / csi) >= 2 * csi) by (nonlinear_arith)
                requires
                    (ll + csi - 1) / csi >= 2,
                    csi >= 1,
            ;
        }
        assert((i + 1) * cs < text.len());
        assert(rs.drop_first().len() == num_chunks((text.len() - (i + 1) * cs) as nat, cs)) by {
            vstd::arithmetic::div_mod::lemma_div_plus_one(ll - csi + csi - 1, csi);
        }
        assert(render_ok(bcp, text, h, i + 1, rs.drop_first(), das.drop_first(),
            dbs.drop_first())) by {
            assert forall|j: int|
                0 <= j < rs.drop_first().len() implies (#[trigger] rs.drop_first()[j])
                < bcp.spec_n2() && digits_of(das.drop_first()[j], cipher_a(bcp, rs.drop_first()[j]))
                && digits_of(
                dbs.drop_first()[j],
                cipher_b(
                    bcp,
                    radix_nat(chunk_of(text, cs, (i + 1 + j) as nat), 256),
                    h,
                    rs.drop_first()[j],
                ),
            ) by {
                assert(rs.drop_first()[j] == rs[j + 1] && das.drop_first()[j] == das[j + 1]
                    && dbs.drop_first()[j] == dbs[j + 1]);
                assert((i + (j + 1)) as nat == (i + 1 + j) as nat);
            }
        }
        lemma_text_round_trip_from(bcp, a, h, text, i + 1, rs.drop_first(), das.drop_first(),
            dbs.drop_first());
        assert(chunk + text.subrange(((i + 1) * cs) as int, len) =~= text.subrange(lo, len));
    }
}

/// Round trip of the text codec: any serialization that `encrypt_str`
/// can produce for a text under the public key `h = g^a mod n^2`
/// decrypts back to that text, with the private exponent and from the
/// master trapdoor alike. The text must be nonempty and no chunk may
/// lead with a zero byte: a leading zero byte is not representable in
/// the shortest big-endian form the decryptors write.
pub proof fn lemma_text_round_trip(
    bcp: Bcp,
    a: nat,
    h: nat,
    text: Seq<u8>,
    rs: Seq<nat>,
    das: Seq<Seq<u8>>,
    dbs: Seq<Seq<u8>>,
)
    requires
        bcp.wf(),
        h == pow(bcp.spec_g() as int, a) % (bcp.spec_n2() as int),
        text.len() > 0,
        forall|t: int|
            0 <= t < text.len() && t % ((bcp.spec_bitsize() / 8) as int) == 0 ==> text[t] != 0,
        rs.len() == num_chunks(text.len(), bcp.spec_bitsize() / 8),
        render_ok(bcp, text, h, 0, rs, das, dbs),
    ensures
        decode_priv(bcp, render_from(bcp, text, h, 0, rs, das, dbs), a) == Ok::<Seq<u8>, Error>(
            text,
        ),
        decode_mk(bcp, render_from(bcp, text, h, 0, rs, das, dbs), h) == Ok::<Seq<u8>, Error>(
            text,
        ),
{
    let cs = bcp.spec_bitsize() / 8;
    assert(0 * cs == 0) by {
        vstd::arithmetic::mul::lemma_mul_by_zero_is_zero(cs as int);
    }
    lemma_text_round_trip_from(bcp, a, h, text, 0, rs, das, dbs);
    assert(text.subrange(0, text.len() as int) =~= text);
}

} // verus!
