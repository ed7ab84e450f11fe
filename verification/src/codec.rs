//! The text codec: arbitrary byte strings are cut into block-sized
//! chunks, each chunk is encrypted as one big-endian integer, and the
//! resulting ciphertext pairs are written as base-92 digit strings over
//! the printable characters `'"'..='~'`, `A` and `B` joined by `'!'`,
//! blocks joined by a single space.

use vstd::prelude::*;

verus! {

use num_bigint::BigUint;
use vstd::arithmetic::power::pow;
use vstd::seq_lib::*;
use crate::Error;
use crate::arith::invertible;
use crate::bigint::nat_of;
use crate::bigint::radix_nat;
use crate::bigint::big_from_bytes_be;
use crate::bigint::big_to_bytes_be;
use crate::bigint::big_from_radix_be;
use crate::bigint::big_to_radix_be;
use crate::params::Ciphertext;
use crate::params::PublicKey;
use crate::params::PrivateKey;
use crate::params::Bcp;
use crate::crypt::cipher_a;
use crate::crypt::cipher_b;
use crate::crypt::decrypt_spec;
use crate::crypt::master_decrypt_spec;

broadcast use vstd::arithmetic::mul::lemma_mul_nonnegative, vstd::arithmetic::mul::lemma_mul_is_commutative;

/// The bytes before the first occurrence of `sep`, and what follows
/// that occurrence, if any.
pub open spec fn split_at_first(s: Seq<u8>, sep: u8) -> (Seq<u8>, Option<Seq<u8>>)
    decreases s.len(),
{
    if s.len() == 0 {
        (Seq::empty(), None)
    } else if s[0] == sep {
        (Seq::empty(), Some(s.subrange(1, s.len() as int)))
    } else {
        let r = split_at_first(s.subrange(1, s.len() as int), sep);
        (seq![s[0]] + r.0, r.1)
    }
}

/// Splitting leaves a strictly shorter remainder.
pub proof fn lemma_split_shorter(s: Seq<u8>, sep: u8)
    ensures
        split_at_first(s, sep).1 matches Some(t) ==> t.len() < s.len(),
    decreases s.len(),
{
    if s.len() != 0 && s[0] != sep {
        lemma_split_shorter(s.subrange(1, s.len() as int), sep);
    }
}

/// Splitting at the first index that holds `sep`: the declarative
/// description of `split_at_first` that the executable scan realises.
pub proof fn lemma_split_at_index(s: Seq<u8>, sep: u8, j: int)
    requires
        0 <= j <= s.len(),
        forall|t: int| 0 <= t < j ==> s[t] != sep,
        j < s.len() ==> s[j] == sep,
    ensures
        j == s.len() ==> split_at_first(s, sep) == (s, None::<Seq<u8>>),
        j < s.len() ==> split_at_first(s, sep) == (
            s.subrange(0, j),
            Some(s.subrange(j + 1, s.len() as int)),
        ),
    decreases s.len(),
{
    if s.len() == 0 {
        assert(s =~= Seq::<u8>::empty());
    } else if j == 0 {
        if 0 < s.len() {
            if s[0] == sep {
                assert(s.subrange(0, 0) =~= Seq::<u8>::empty());
            }
        }
    } else {
        let tail = s.subrange(1, s.len() as int);
        lemma_split_at_index(tail, sep, j - 1);
        let r = split_at_first(tail, sep);
        if j == s.len() {
            assert(seq![s[0]] + tail =~= s);
            assert(seq![s[0]] + r.0 =~= s);
        } else {
            assert(tail.subrange(0, j - 1) =~= s.subrange(1, j));
            assert(seq![s[0]] + s.subrange(1, j) =~= s.subrange(0, j));
            assert(tail.subrange(j, tail.len() as int) =~= s.subrange(j + 1, s.len() as int));
        }
    }
}

/// The big-endian base-256 digits of `v`, most significant first; empty
/// for zero.
pub open spec fn min_digits256(v: nat) -> Seq<u8>
    decreases v,
{
    if v == 0 {
        Seq::empty()
    } else {
        min_digits256(v / 256).push((v % 256) as u8)
    }
}

/// The byte string a decrypted block is written back as: the shortest
/// big-endian form, a single zero byte for zero.
pub open spec fn bytes256(v: nat) -> Seq<u8> {
    if v == 0 {
        seq![0u8]
    } else {
        min_digits256(v)
    }
}

/// A nonempty big-endian digit string with a nonzero leading digit has a
/// nonzero value.
pub proof fn lemma_radix_pos(ds: Seq<u8>)
    requires
        ds.len() >= 1,
        ds[0] != 0,
    ensures
        radix_nat(ds, 256) > 0,
    decreases ds.len(),
{
    if ds.len() == 1 {
        assert(ds.drop_last() =~= Seq::<u8>::empty());
    } else {
        lemma_radix_pos(ds.drop_last());
        assert(radix_nat(ds.drop_last(), 256) * 256 > 0) by (nonlinear_arith)
            requires
                radix_nat(ds.drop_last(), 256) > 0,
        ;
    }
}

/// Base-256 digit strings without leading zeros are unique: any such
/// string with value `v` is `bytes256(v)`.
pub proof fn lemma_bytes256_unique(ds: Seq<u8>)
    requires
        ds.len() >= 1,
        ds[0] != 0 || ds =~= seq![0u8],
    ensures
        ds =~= bytes256(radix_nat(ds, 256)),
    decreases ds.len(),
{
    let v = radix_nat(ds, 256);
    if ds.len() == 1 {
        assert(ds.drop_last() =~= Seq::<u8>::empty());
        assert(radix_nat(Seq::<u8>::empty(), 256) == 0);
        assert(v == ds[0]);
        if v != 0 {
            assert(min_digits256(v) == min_digits256(v / 256).push((v % 256) as u8));
            assert(v / 256 == 0 && v % 256 == v) by {
                vstd::arithmetic::div_mod::lemma_small_mod(v, 256);
                vstd::arithmetic::div_mod::lemma_basic_div(v as int, 256);
            }
            assert(min_digits256(v) =~= seq![ds[0]]);
        }
    } else {
        let prefix = ds.drop_last();
        let d = ds.last();
        assert(prefix[0] == ds[0]);
        assert(ds[0] != 0);
        lemma_radix_pos(prefix);
        let w = radix_nat(prefix, 256);
        assert(v == w * 256 + d);
        assert(v / 256 == w && v % 256 == d) by {
            vstd::arithmetic::div_mod::lemma_fundamental_div_mod_converse(
                v as int,
                256,
                w as int,
                d as int,
            );
        }
        assert(v > 0) by (nonlinear_arith)
            requires
                v == w * 256 + d,
                w > 0,
        ;
        lemma_bytes256_unique(prefix);
        assert(prefix =~= min_digits256(w));
        assert(min_digits256(v) == min_digits256(w).push(d));
        assert(ds =~= prefix.push(d));
    }
}

/// A big-endian digit string's value is below `base^len`.
pub proof fn lemma_radix_bound(ds: Seq<u8>, base: nat)
    requires
        base >= 1,
        forall|i: int| 0 <= i < ds.len() ==> ds[i] < base,
    ensures
        radix_nat(ds, base) < pow(base as int, ds.len() as nat),
    decreases ds.len(),
{
    vstd::arithmetic::power::lemma_pow_positive(base as int, ds.len() as nat);
    if ds.len() == 0 {
    } else {
        lemma_radix_bound(ds.drop_last(), base);
        let w = radix_nat(ds.drop_last(), base);
        let pl = pow(base as int, (ds.len() - 1) as nat);
        vstd::arithmetic::power::lemma_pow_adds(base as int, (ds.len() - 1) as nat, 1);
        vstd::arithmetic::power::lemma_pow1(base as int);
        assert(w * base + ds.last() < pl * base) by (nonlinear_arith)
            requires
                w < pl,
                ds.last() < base,
                base >= 1,
        ;
    }
}

/// Every character of a digit string lies in the base-92 alphabet
/// `'"'..='~'`.
pub open spec fn digits_valid(cs: Seq<u8>) -> bool {
    forall|i: int| 0 <= i < cs.len() ==> 34 <= #[trigger] cs[i] < 126
}

/// The printable character of each digit: `'"' + d`.
pub open spec fn chars_of(ds: Seq<u8>) -> Seq<u8> {
    ds.map_values(|d: u8| (d + 34) as u8)
}

/// The value a digit-character string stands for.
pub open spec fn value_of_chars(cs: Seq<u8>) -> nat {
    radix_nat(cs.map_values(|c: u8| (c - 34) as u8), 92)
}

/// The two numbers a serialized block holds, or `MalformedCiphertext`
/// when the `!` separator is missing or a character falls outside the
/// alphabet.
pub open spec fn decode_block(blk: Seq<u8>) -> Result<(nat, nat), Error> {
    let sp = split_at_first(blk, 33);
    match sp.1 {
        None => Err(Error::MalformedCiphertext),
        Some(bstr) => if digits_valid(sp.0) && digits_valid(bstr) {
            Ok((value_of_chars(sp.0), value_of_chars(bstr)))
        } else {
            Err(Error::MalformedCiphertext)
        },
    }
}

/// What decrypting a serialized ciphertext along the private path
/// yields: each space-separated block is parsed, decrypted with the
/// private exponent, written back as its shortest big-endian bytes, and
/// the pieces are concatenated; the first failure wins.
pub open spec fn decode_priv(bcp: Bcp, s: Seq<u8>, a: nat) -> Result<Seq<u8>, Error>
    decreases s.len(),
    via decode_priv_dec
{
    let sp = split_at_first(s, 32);
    match decode_block(sp.0) {
        Err(e) => Err(e),
        Ok(ab) => if !invertible(ab.0, bcp.spec_n2()) {
            Err(Error::NonInvertible)
        } else {
            let bytes = bytes256(decrypt_spec(bcp, ab.0, ab.1, a));
            match sp.1 {
                None => Ok(bytes),
                Some(tail) => match decode_priv(bcp, tail, a) {
                    Err(e) => Err(e),
                    Ok(bs) => Ok(bytes + bs),
                },
            }
        },
    }
}

#[via_fn]
proof fn decode_priv_dec(bcp: Bcp, s: Seq<u8>, a: nat) {
    lemma_split_shorter(s, 32);
}

/// What decrypting a serialized ciphertext along the master path
/// yields, from the addressee's public key alone.
pub open spec fn decode_mk(bcp: Bcp, s: Seq<u8>, h: nat) -> Result<Seq<u8>, Error>
    decreases s.len(),
    via decode_mk_dec
{
    let sp = split_at_first(s, 32);
    match decode_block(sp.0) {
        Err(e) => Err(e),
        Ok(ab) => {
            let bytes = bytes256(master_decrypt_spec(bcp, ab.0, ab.1, h));
            match sp.1 {
                None => Ok(bytes),
                Some(tail) => match decode_mk(bcp, tail, h) {
                    Err(e) => Err(e),
                    Ok(bs) => Ok(bytes + bs),
                },
            }
        },
    }
}

#[via_fn]
proof fn decode_mk_dec(bcp: Bcp, s: Seq<u8>, h: nat) {
    lemma_split_shorter(s, 32);
}

/// The chunk of the text that block `i` encrypts: `cs` bytes from
/// position `i * cs`, fewer for the final chunk.
pub open spec fn chunk_of(text: Seq<u8>, cs: nat, i: nat) -> Seq<u8> {
    let lo = (i * cs) as int;
    let hi = if (i + 1) * cs <= text.len() {
        ((i + 1) * cs) as int
    } else {
        text.len() as int
    };
    text.subrange(lo, hi)
}

/// How many chunks a text of the given length falls into.
pub open spec fn num_chunks(len: nat, cs: nat) -> nat {
    (((len + cs - 1) as int) / (cs as int)) as nat
}

/// One serialized block: `A`'s digit characters, `'!'`, `B`'s digit
/// characters. `da` and `db` may be any base-92 digit strings with the
/// right values: the serializer writes the shortest ones.
pub open spec fn block_chars(da: Seq<u8>, db: Seq<u8>) -> Seq<u8> {
    chars_of(da) + seq![33u8] + chars_of(db)
}

/// A digit string `ds` writes the number `v` in base 92.
pub open spec fn digits_of(ds: Seq<u8>, v: nat) -> bool {
    &&& ds.len() >= 1
    &&& forall|i: int| 0 <= i < ds.len() ==> #[trigger] ds[i] < 92
    &&& radix_nat(ds, 92) == v
}

/// The serialized form of the chunks of `text` from chunk `i` on, one
/// block per remaining chunk, blocks joined by a single space: block
/// `i + j` encrypts chunk `i + j` with randomizer `rs[j]` and is written
/// with the digit strings `das[j]` and `dbs[j]`.
pub open spec fn render_from(
    bcp: Bcp,
    text: Seq<u8>,
    h: nat,
    i: nat,
    rs: Seq<nat>,
    das: Seq<Seq<u8>>,
    dbs: Seq<Seq<u8>>,
) -> Seq<u8>
    decreases rs.len(),
{
    if rs.len() == 0 {
        Seq::empty()
    } else {
        let blk = block_chars(das[0], dbs[0]);
        if rs.len() == 1 {
            blk
        } else {
            blk + seq![32u8] + render_from(
                bcp,
                text,
                h,
                i + 1,
                rs.drop_first(),
                das.drop_first(),
                dbs.drop_first(),
            )
        }
    }
}

/// The side conditions under which `render_from` describes an honest
/// serialization: each randomizer is in range and each digit string
/// writes the matching ciphertext component of the matching chunk.
pub open spec fn render_ok(
    bcp: Bcp,
    text: Seq<u8>,
    h: nat,
    i: nat,
    rs: Seq<nat>,
    das: Seq<Seq<u8>>,
    dbs: Seq<Seq<u8>>,
) -> bool {
    let cs = bcp.spec_bitsize() / 8;
    &&& das.len() == rs.len()
    &&& dbs.len() == rs.len()
    &&& forall|j: int|
        0 <= j < rs.len() ==> (#[trigger] rs[j]) < bcp.spec_n2() && digits_of(
            das[j],
            cipher_a(bcp, rs[j]),
        ) && digits_of(dbs[j], cipher_b(bcp, radix_nat(chunk_of(text, cs, (i + j) as nat), 256), h, rs[j]))
}

/// First position of `b` in `s` at or after `from` and before `to`,
/// or `to` when `b` does not occur there.
fn find_byte(s: &[u8], from: usize, to: usize, b: u8) -> (r: usize)
    requires
        from <= to <= s@.len(),
    ensures
        from <= r <= to,
        forall|t: int| from <= t < r ==> s@[t] != b,
        r < to ==> s@[r as int] == b,
{
    let mut j = from;
    while j < to
        invariant
            from <= j <= to <= s@.len(),
            forall|t: int| from <= t < j ==> s@[t] != b,
        decreases to - j,
    {
        if *vstd::slice::slice_index_get(s, j) == b {
            return j;
        }
        j = j + 1;
    }
    j
}

/// Undoes the character offset of a digit string, rejecting any
/// character outside the base-92 alphabet.
fn digits_from_chars(s: &[u8], from: usize, to: usize) -> (r: Result<Vec<u8>, Error>)
    requires
        from <= to <= s@.len(),
    ensures
        r matches Ok(d) ==> digits_valid(s@.subrange(from as int, to as int)) && d@ == s@.subrange(
            from as int,
            to as int,
        ).map_values(|c: u8| (c - 34) as u8) && (forall|i: int|
            0 <= i < d@.len() ==> #[trigger] d@[i] < 92),
        r matches Err(e) ==> e == Error::MalformedCiphertext && !digits_valid(
            s@.subrange(from as int, to as int),
        ),
{
    let ghost sub = s@.subrange(from as int, to as int);
    let mut d: Vec<u8> = Vec::new();
    let mut j = from;
    while j < to
        invariant
            from <= j <= to <= s@.len(),
            sub == s@.subrange(from as int, to as int),
            d@ == s@.subrange(from as int, j as int).map_values(|c: u8| (c - 34) as u8),
            forall|t: int| from <= t < j ==> 34 <= #[trigger] s@[t] < 126,
            forall|i: int| 0 <= i < d@.len() ==> #[trigger] d@[i] < 92,
        decreases to - j,
    {
        let c = *vstd::slice::slice_index_get(s, j);
        if c < 34 || c >= 126 {
            proof {
                assert(sub[(j - from) as int] == s@[j as int]);
            }
            return Err(Error::MalformedCiphertext);
        }
        d.push(c - 34);
        proof {
            assert(s@.subrange(from as int, (j + 1) as int).map_values(|c: u8| (c - 34) as u8)
                =~= s@.subrange(from as int, j as int).map_values(|c: u8| (c - 34) as u8).push(
                ((s@[j as int] - 34) as u8),
            ));
        }
        j = j + 1;
    }
    proof {
        assert(digits_valid(sub)) by {
            assert forall|i: int| 0 <= i < sub.len() implies 34 <= #[trigger] sub[i] < 126 by {
                assert(sub[i] == s@[from + i]);
            }
        }
    }
    Ok(d)
}

/// Reads the two numbers of the serialized block `s[from..to]`, or the
/// `MalformedCiphertext` that `decode_block` assigns it.
fn parse_block(s: &[u8], from: usize, to: usize) -> (r: Result<(BigUint, BigUint), Error>)
    requires
        from <= to <= s@.len(),
    ensures
        r matches Ok(ab) ==> decode_block(s@.subrange(from as int, to as int)) == Ok::<
            (nat, nat),
            Error,
        >((nat_of(ab.0), nat_of(ab.1))),
        r matches Err(e) ==> decode_block(s@.subrange(from as int, to as int)) == Err::<
            (nat, nat),
            Error,
        >(e),
{
    let ghost blk = s@.subrange(from as int, to as int);
    let j = find_byte(s, from, to, 33);
    proof {
        assert(forall|t: int| 0 <= t < j - from ==> blk[t] == s@[from + t]);
        lemma_split_at_index(blk, 33, j - from);
    }
    if j == to {
        return Err(Error::MalformedCiphertext);
    }
    proof {
        assert(blk.subrange(0, (j - from) as int) =~= s@.subrange(from as int, j as int));
        assert(blk.subrange((j - from + 1) as int, blk.len() as int) =~= s@.subrange(
            (j + 1) as int,
            to as int,
        ));
    }
    let da = match digits_from_chars(s, from, j) {
        Ok(d) => d,
        Err(e) => {
            return Err(e);
        },
    };
    let db = match digits_from_chars(s, j + 1, to) {
        Ok(d) => d,
        Err(e) => {
            return Err(e);
        },
    };
    let a = match big_from_radix_be(da.as_slice(), 92) {
        Some(v) => v,
        None => {
            return vstd::pervasive::unreached();
        },
    };
    let b = match big_from_radix_be(db.as_slice(), 92) {
        Some(v) => v,
        None => {
            return vstd::pervasive::unreached();
        },
    };
    Ok((a, b))
}

/// Appends the printable character of each digit.
fn append_chars(out: &mut Vec<u8>, ds: &Vec<u8>)
    requires
        forall|i: int| 0 <= i < ds@.len() ==> #[trigger] ds@[i] < 92,
    ensures
        final (out)@ == old(out)@ + chars_of(ds@),
{
    let mut j: usize = 0;
    while j < ds.len()
        invariant
            j <= ds@.len(),
            forall|i: int| 0 <= i < ds@.len() ==> #[trigger] ds@[i] < 92,
            out@ == old(out)@ + chars_of(ds@.subrange(0, j as int)),
        decreases ds@.len() - j,
    {
        let d = ds[j];
        out.push(d + 34);
        proof {
            assert(chars_of(ds@.subrange(0, (j + 1) as int)) =~= chars_of(
                ds@.subrange(0, j as int),
            ).push(((ds@[j as int] + 34) as u8)));
        }
        j = j + 1;
    }
    proof {
        assert(ds@.subrange(0, ds@.len() as int) =~= ds@);
    }
}

impl Bcp {
    /// Decrypts the blocks of `s[start..]` along the private path and
    /// concatenates the recovered chunks.
    fn decrypt_str_from(&self, s: &[u8], start: usize, private_key: &PrivateKey) -> (r: Result<
        Vec<u8>,
        Error,
    >)
        requires
            self.wf(),
            start <= s@.len(),
        ensures
            r matches Ok(v) ==> decode_priv(
                *self,
                s@.subrange(start as int, s@.len() as int),
                private_key.value(),
            ) == Ok::<Seq<u8>, Error>(v@),
            r matches Err(e) ==> decode_priv(
                *self,
                s@.subrange(start as int, s@.len() as int),
                private_key.value(),
            ) == Err::<Seq<u8>, Error>(e),
        decreases s@.len() - start,
    {
        let ghost sub = s@.subrange(start as int, s@.len() as int);
        let len = s.len();
        let j = find_byte(s, start, len, 32);
        proof {
            assert(forall|t: int| 0 <= t < j - start ==> sub[t] == s@[start + t]);
            lemma_split_at_index(sub, 32, j - start);
            assert(sub.subrange(0, (j - start) as int) =~= s@.subrange(start as int, j as int));
            if j < len {
                assert(sub.subrange((j - start + 1) as int, sub.len() as int) =~= s@.subrange(
                    (j + 1) as int,
                    len as int,
                ));
            }
        }
        let ab = match parse_block(s, start, j) {
            Ok(x) => x,
            Err(e) => {
                return Err(e);
            },
        };
        let ct = Ciphertext(ab.0, ab.1);
        proof {
            ct.lemma_view();
        }
        let m = match self.decrypt(ct, private_key) {
            Ok(m) => m,
            Err(e) => {
                return Err(e);
            },
        };
        let mut out = big_to_bytes_be(&m);
        proof {
            lemma_bytes256_unique(out@);
        }
        if j < len {
            let mut rest = match self.decrypt_str_from(s, j + 1, private_key) {
                Ok(v) => v,
                Err(e) => {
                    return Err(e);
                },
            };
            out.append(&mut rest);
        }
        Ok(out)
    }

    /// Decrypts a serialized ciphertext with the private exponent:
    /// exactly the reverse of `encrypt_str`. A block without the `!`
    /// separator, or with a character outside the base-92 alphabet, is
    /// `MalformedCiphertext`; a block whose first number has no inverse
    /// modulo `n^2` is `NonInvertible`.
    pub fn decrypt_str(&self, ciphertext: &[u8], private_key: &PrivateKey) -> (r: Result<
        Vec<u8>,
        Error,
    >)
        requires
            self.wf(),
        ensures
            r matches Ok(v) ==> decode_priv(*self, ciphertext@, private_key.value()) == Ok::<
                Seq<u8>,
                Error,
            >(v@),
            r matches Err(e) ==> decode_priv(*self, ciphertext@, private_key.value()) == Err::<
                Seq<u8>,
                Error,
            >(e),
    {
        proof {
            assert(ciphertext@.subrange(0, ciphertext@.len() as int) =~= ciphertext@);
        }
        self.decrypt_str_from(ciphertext, 0, private_key)
    }

    /// Decrypts the blocks of `s[start..]` along the master path and
    /// concatenates the recovered chunks.
    fn decrypt_str_mk_from(&self, s: &[u8], start: usize, public_key: &PublicKey) -> (r: Result<
        Vec<u8>,
        Error,
    >)
        requires
            self.wf(),
            start <= s@.len(),
        ensures
            r matches Ok(v) ==> decode_mk(
                *self,
                s@.subrange(start as int, s@.len() as int),
                public_key.value(),
            ) == Ok::<Seq<u8>, Error>(v@),
            r matches Err(e) ==> decode_mk(
                *self,
                s@.subrange(start as int, s@.len() as int),
                public_key.value(),
            ) == Err::<Seq<u8>, Error>(e),
        decreases s@.len() - start,
    {
        let ghost sub = s@.subrange(start as int, s@.len() as int);
        let len = s.len();
        let j = find_byte(s, start, len, 32);
        proof {
            assert(forall|t: int| 0 <= t < j - start ==> sub[t] == s@[start + t]);
            lemma_split_at_index(sub, 32, j - start);
            assert(sub.subrange(0, (j - start) as int) =~= s@.subrange(start as int, j as int));
            if j < len {
                assert(sub.subrange((j - start + 1) as int, sub.len() as int) =~= s@.subrange(
                    (j + 1) as int,
                    len as int,
                ));
            }
        }
        let ab = match parse_block(s, start, j) {
            Ok(x) => x,
            Err(e) => {
                return Err(e);
            },
        };
        let ct = Ciphertext(ab.0, ab.1);
        proof {
            ct.lemma_view();
        }
        let m = self.decrypt_mk(ct, public_key);
        let mut out = big_to_bytes_be(&m);
        proof {
            lemma_bytes256_unique(out@);
        }
        if j < len {
            let mut rest = match self.decrypt_str_mk_from(s, j + 1, public_key) {
                Ok(v) => v,
                Err(e) => {
                    return Err(e);
                },
            };
            out.append(&mut rest);
        }
        Ok(out)
    }

    /// A chunk of at most `bitsize / 8` bytes reads as an integer below
    /// the modulus, since `n` is a product of two primes of `bitsize`
    /// bits each.
    pub proof fn lemma_chunk_fits(self, l: nat)
        requires
            self.wf(),
            l <= self.spec_bitsize() / 8,
        ensures
            pow(256, l) <= self.spec_n(),
    {
        let b = self.spec_bitsize();
        vstd::arithmetic::power::lemma_pow_multiplies(2, 8, l);
        assert(pow(2, 8) == 256) by {
            vstd::arithmetic::power2::lemma_pow2(8);
            vstd::arithmetic::power2::lemma2_to64();
        }
        assert(8 * l <= b) by {
            vstd::arithmetic::div_mod::lemma_fundamental_div_mod(b as int, 8);
            assert(8 * l <= 8 * (b / 8)) by (nonlinear_arith)
                requires
                    l <= b / 8,
            ;
        }
        vstd::arithmetic::power::lemma_pow_increases(2, 8 * l, b);
        vstd::arithmetic::power::lemma_pow_increases(2, b, (2 * b - 2) as nat);
        vstd::arithmetic::power::lemma_pow_adds(2, (b - 1) as nat, (b - 1) as nat);
        let half = pow(2, (b - 1) as nat);
        vstd::arithmetic::power::lemma_pow_positive(2, (b - 1) as nat);
        assert(half * half <= self.spec_p() * self.spec_q()) by (nonlinear_arith)
            requires
                half <= self.spec_p(),
                half <= self.spec_q(),
                half > 0,
        ;
    }

    /// Serializes the chunks of `text[start..]`, the chunk at `start`
    /// being chunk number `ci`, each encrypted with a fresh randomizer.
    fn encrypt_str_from(
        &self,
        text: &[u8],
        start: usize,
        public_key: &PublicKey,
        Ghost(ci): Ghost<nat>,
    ) -> (r: Vec<u8>)
        requires
            self.wf(),
            start < text@.len(),
            start == ci * (self.spec_bitsize() / 8),
        ensures
            exists|rs: Seq<nat>, das: Seq<Seq<u8>>, dbs: Seq<Seq<u8>>|
                #![trigger render_ok(*self, text@, public_key.value(), ci, rs, das, dbs)]
                rs.len() == num_chunks((text@.len() - start) as nat, self.spec_bitsize() / 8)
                    && render_ok(*self, text@, public_key.value(), ci, rs, das, dbs) && r@
                    == render_from(*self, text@, public_key.value(), ci, rs, das, dbs),
        decreases text@.len() - start,
    {
        proof {
            self.lemma_view();
            public_key.lemma_view();
        }
        let ghost csn = self.spec_bitsize() / 8;
        let cs = self.bitsize / 8;
        let len = text.len();
        let end = if len - start > cs {
            start + cs
        } else {
            len
        };
        let mut chunk: Vec<u8> = Vec::new();
        let mut j = start;
        while j < end
            invariant
                start <= j <= end <= text@.len(),
                chunk@ == text@.subrange(start as int, j as int),
            decreases end - j,
        {
            chunk.push(*vstd::slice::slice_index_get(text, j));
            proof {
                assert(text@.subrange(start as int, (j + 1) as int) =~= text@.subrange(
                    start as int,
                    j as int,
                ).push(text@[j as int]));
            }
            j = j + 1;
        }
        proof {
            assert((ci + 1) * csn == ci * csn + csn) by (nonlinear_arith);
            assert(chunk@ =~= chunk_of(text@, csn, ci));
            lemma_radix_bound(chunk@, 256);
            self.lemma_chunk_fits((end - start) as nat);
            vstd::arithmetic::power::lemma_pow_increases(256, (end - start) as nat, csn);
        }
        let m = big_from_bytes_be(chunk.as_slice());
        let c = match self.encrypt(m, public_key) {
            Ok(c) => c,
            Err(_) => {
                return vstd::pervasive::unreached();
            },
        };
        proof {
            c.lemma_view();
        }
        let da = big_to_radix_be(&c.0, 92);
        let db = big_to_radix_be(&c.1, 92);
        let mut out: Vec<u8> = Vec::new();
        append_chars(&mut out, &da);
        out.push(33);
        append_chars(&mut out, &db);
        let ghost rr = choose|rr: nat|
            rr < self.spec_n2() && c.a() == cipher_a(*self, rr) && c.b() == #[trigger] cipher_b(
                *self,
                radix_nat(chunk_of(text@, csn, ci), 256),
                public_key.value(),
                rr,
            );
        if end < len {
            out.push(32);
            let mut rest = self.encrypt_str_from(text, end, public_key, Ghost(ci + 1));
            proof {
                let h = public_key.value();
                let (rs2, das2, dbs2) = choose|rs2: Seq<nat>, das2: Seq<Seq<u8>>, dbs2: Seq<
                    Seq<u8>,
                >|
                    #![trigger render_ok(*self, text@, h, ci + 1, rs2, das2, dbs2)]
                    rs2.len() == num_chunks((text@.len() - end) as nat, csn) && render_ok(
                        *self,
                        text@,
                        h,
                        ci + 1,
                        rs2,
                        das2,
                        dbs2,
                    ) && rest@ == render_from(*self, text@, h, ci + 1, rs2, das2, dbs2);
                let rs = seq![rr] + rs2;
                let das = seq![da@] + das2;
                let dbs = seq![db@] + dbs2;
                assert(rs.drop_first() =~= rs2);
                assert(das.drop_first() =~= das2);
                assert(dbs.drop_first() =~= dbs2);
                assert(render_ok(*self, text@, h, ci, rs, das, dbs)) by {
                    assert forall|t: int| 0 <= t < rs.len() implies (#[trigger] rs[t])
                        < self.spec_n2() && digits_of(das[t], cipher_a(*self, rs[t]))
                        && digits_of(
                        dbs[t],
                        cipher_b(
                            *self,
                            radix_nat(chunk_of(text@, csn, (ci + t) as nat), 256),
                            h,
                            rs[t],
                        ),
                    ) by {
                        if t > 0 {
                            assert(rs[t] == rs2[t - 1] && das[t] == das2[t - 1] && dbs[t] == dbs2[t
                                - 1]);
                            assert((ci + 1 + (t - 1)) as nat == (ci + t) as nat);
                        }
                    }
                }
                assert(num_chunks((text@.len() - start) as nat, csn) == 1 + num_chunks(
                    (text@.len() - end) as nat,
                    csn,
                )) by {
                    vstd::arithmetic::div_mod::lemma_div_plus_one(
                        ((text@.len() - end) as nat + csn - 1) as int,
                        csn as int,
                    );
                }
                assert(rs2.len() >= 1) by {
                    vstd::arithmetic::div_mod::lemma_div_non_zero(
                        ((text@.len() - end) as nat + csn - 1) as int,
                        csn as int,
                    );
                }
                assert(rest@ == render_from(*self, text@, h, (ci + 1) as nat, rs2, das2, dbs2));
                assert(render_from(*self, text@, h, ci, rs, das, dbs) == block_chars(
                    das[0],
                    dbs[0],
                ) + seq![32u8] + render_from(
                    *self,
                    text@,
                    h,
                    ci + 1,
                    rs.drop_first(),
                    das.drop_first(),
                    dbs.drop_first(),
                ));
                assert(out@ + rest@ =~= block_chars(das[0], dbs[0]) + seq![32u8] + rest@);
                assert(out@ + rest@ == render_from(*self, text@, h, ci, rs, das, dbs));
            }
            out.append(&mut rest);
        } else {
            proof {
                let h = public_key.value();
                let rs = seq![rr];
                let das = seq![da@];
                let dbs = seq![db@];
                assert(render_ok(*self, text@, h, ci, rs, das, dbs));
                assert(out@ == render_from(*self, text@, h, ci, rs, das, dbs));
                assert(num_chunks((text@.len() - start) as nat, csn) == 1) by {
                    let ll = (text@.len() - start) as int;
                    vstd::arithmetic::div_mod::lemma_fundamental_div_mod_converse(
                        ll + csn as int - 1,
                        csn as int,
                        1,
                        ll - 1,
                    );
                }
            }
        }
        out
    }

    /// Serializes an encryption of `plaintext` under the given public
    /// key: the text is cut into chunks of `bitsize / 8` bytes (the
    /// final one may be shorter), each chunk is encrypted as a
    /// big-endian integer, and each ciphertext pair is written as two
    /// base-92 digit strings joined by `'!'`, blocks joined by a single
    /// space.
    pub fn encrypt_str(&self, plaintext: &[u8], public_key: &PublicKey) -> (r: Vec<u8>)
        requires
            self.wf(),
        ensures
            exists|rs: Seq<nat>, das: Seq<Seq<u8>>, dbs: Seq<Seq<u8>>|
                #![trigger render_ok(*self, plaintext@, public_key.value(), 0, rs, das, dbs)]
                rs.len() == num_chunks(plaintext@.len(), self.spec_bitsize() / 8) && render_ok(
                    *self,
                    plaintext@,
                    public_key.value(),
                    0,
                    rs,
                    das,
                    dbs,
                ) && r@ == render_from(*self, plaintext@, public_key.value(), 0, rs, das, dbs),
    {
        if plaintext.len() == 0 {
            let out: Vec<u8> = Vec::new();
            proof {
                let h = public_key.value();
                let rs = Seq::<nat>::empty();
                let das = Seq::<Seq<u8>>::empty();
                let dbs = Seq::<Seq<u8>>::empty();
                let csn = self.spec_bitsize() / 8;
                assert(num_chunks(0, csn) == 0) by {
                    vstd::arithmetic::div_mod::lemma_basic_div(csn as int - 1, csn as int);
                }
                assert(render_ok(*self, plaintext@, h, 0, rs, das, dbs));
                assert(out@ == render_from(*self, plaintext@, h, 0, rs, das, dbs));
            }
            return out;
        }
        proof {
            vstd::arithmetic::mul::lemma_mul_by_zero_is_zero((self.spec_bitsize() / 8) as int);
        }
        self.encrypt_str_from(plaintext, 0, public_key, Ghost(0))
    }

    /// Decrypts a serialized ciphertext from the master trapdoor and the
    /// addressee's public key alone: exactly the reverse of
    /// `encrypt_str`, along the master path.
    pub fn decrypt_str_mk(&self, ciphertext: &[u8], public_key: &PublicKey) -> (r: Result<
        Vec<u8>,
        Error,
    >)
        requires
            self.wf(),
        ensures
            r matches Ok(v) ==> decode_mk(*self, ciphertext@, public_key.value()) == Ok::<
                Seq<u8>,
                Error,
            >(v@),
            r matches Err(e) ==> decode_mk(*self, ciphertext@, public_key.value()) == Err::<
                Seq<u8>,
                Error,
            >(e),
    {
        proof {
            assert(ciphertext@.subrange(0, ciphertext@.len() as int) =~= ciphertext@);
        }
        self.decrypt_str_mk_from(ciphertext, 0, public_key)
    }
}

} // verus!
