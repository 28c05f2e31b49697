//! Updatable public-key encryption in the Ristretto group, with `ell` generators.
//!
//! A secret key is a vector of scalars `x_1..x_ell`; its public key is
//! `g_1..g_ell` with `h = x_1*g_1 + ... + x_ell*g_ell`. An update shifts the secret
//! key by a vector of bits and carries each bit, encrypted, in an update token.

use crate::algebra::{lemma_dot_scaled, lemma_dot_shifted, lemma_unmask};
use crate::bytes::{
    append, append_be, append_le, be_bytes, block, concat, le_bytes, le_value,
    lemma_concat_blocks, lemma_concat_of_blocks, read_block,
};
use crate::hash::{ct_eq, sha512, sha512_digest};
use crate::ristretto::{
    all_points, all_scalars, basepoint, decompress, dot, encodes_point, hash_to_point, hashed_log,
    identity, logs, multiscalar_mul, order, point_log, point_minus, point_plus, point_times,
    point_times_each, scalar_from_canonical, scalar_from_u64, scalar_from_wide, scalar_plus,
    values, Point, Scalar,
};
use crate::rng::{
    law_draws_move_on, law_stream_starts_over, period, stream, stream_bytes, stream_scalar,
    SeededRng,
};
use vstd::arithmetic::div_mod::{lemma_add_mod_noop, lemma_mod_twice, lemma_mul_mod_noop_left};
use vstd::arithmetic::power2::pow2;
use vstd::prelude::*;

verus! {

/// Number of generators of the keys that the providers make.
pub const UPKE_L: usize = 32;

/// Errors of the encryption scheme.
#[derive(Clone, Copy, Debug, PartialEq, Eq, Structural)]
pub enum UpkeError {
    InvalidLength,
    InvalidGroupElement,
    InvalidScalar,
    InvalidPoint,
    InvalidUpdateToken,
}

/// A serialized public key, `g_1||...||g_ell||h`.
#[derive(Clone, Debug, PartialEq, Eq)]
pub struct UpkePublicKey {
    pub bytes: Vec<u8>,
}

/// A serialized secret key, `x_1||...||x_ell`.
#[derive(Clone, Debug, PartialEq, Eq)]
pub struct UpkeSecretKey {
    pub bytes: Vec<u8>,
}

/// A ciphertext: `kem_output` is `f_1||...||f_ell` and `ciphertext` is `c`.
#[derive(Clone, Debug, PartialEq, Eq)]
pub struct UpkeCiphertext {
    pub kem_output: Vec<u8>,
    pub ciphertext: Vec<u8>,
}

/// An update token: one ciphertext for each position of the secret key.
#[derive(Clone, Debug, PartialEq, Eq)]
pub struct UpkeUpdateToken(pub Vec<UpkeCiphertext>);

/// A public key, parsed.
#[derive(Clone, Debug, PartialEq, Eq)]
pub struct ParsedUpkePublicKey {
    pub g: Vec<Point>,
    pub h: Point,
}

/// A secret key, parsed.
#[derive(Clone, Debug, PartialEq, Eq)]
pub struct ParsedUpkeSecretKey {
    pub x: Vec<Scalar>,
}

/// Each of the first `n` blocks of `b` encodes a group element.
pub open spec fn all_encoded(b: Seq<u8>, n: int) -> bool {
    forall|i: int| 0 <= i < n ==> (#[trigger] point_log(block(b, i))) is Some
}

/// The logarithm of the element that `bytes` encode.
pub open spec fn log_of(bytes: Seq<u8>) -> int {
    match point_log(bytes) {
        Some(k) => k,
        None => 0,
    }
}

/// The logarithm of the element that the `i`-th block of `b` encodes.
pub open spec fn log_at(b: Seq<u8>, i: int) -> int {
    log_of(block(b, i))
}

/// The logarithms of the elements that the first `n` blocks of `b` encode.
pub open spec fn logs_at(b: Seq<u8>, n: nat) -> Seq<int> {
    Seq::new(n, |i: int| log_at(b, i))
}

/// Each of the first `n` blocks of `b` is the canonical form of a scalar.
pub open spec fn all_canonical(b: Seq<u8>, n: int) -> bool {
    forall|i: int| 0 <= i < n ==> #[trigger] le_value(block(b, i)) < order()
}

/// The scalars in the first `n` blocks of `b`.
pub open spec fn scalars_at(b: Seq<u8>, n: nat) -> Seq<int> {
    Seq::new(n, |i: int| le_value(block(b, i)))
}

/// The encodings of the given elements.
pub open spec fn point_blocks(g: Seq<Point>) -> Seq<Seq<u8>> {
    g.map_values(|p: Point| p.bytes@)
}

/// The bytes of the given scalars.
pub open spec fn scalar_blocks(x: Seq<Scalar>) -> Seq<Seq<u8>> {
    x.map_values(|s: Scalar| s.bytes@)
}

/// Why `b` is no public key with `ell` generators, if it is none.
pub open spec fn public_key_error(b: Seq<u8>, ell: int) -> Option<UpkeError> {
    if b.len() != 32 * (ell + 1) {
        Some(UpkeError::InvalidLength)
    } else if !all_encoded(b, ell + 1) {
        Some(UpkeError::InvalidGroupElement)
    } else {
        None
    }
}

/// Why `b` is no secret key with `ell` scalars, if it is none.
pub open spec fn secret_key_error(b: Seq<u8>, ell: int) -> Option<UpkeError> {
    if b.len() != 32 * ell {
        Some(UpkeError::InvalidLength)
    } else if !all_canonical(b, ell) {
        Some(UpkeError::InvalidScalar)
    } else {
        None
    }
}

/// The lengths of the two parts of a ciphertext for `ell` generators.
pub open spec fn ciphertext_len_ok(ct: UpkeCiphertext, ell: int) -> bool {
    ct.kem_output@.len() == 32 * ell && ct.ciphertext@.len() == 32
}

/// Each part of the ciphertext encodes group elements.
pub open spec fn ciphertext_encoded(ct: UpkeCiphertext, ell: int) -> bool {
    all_encoded(ct.kem_output@, ell) && point_log(ct.ciphertext@) is Some
}

/// Why `ct` is no ciphertext for `ell` generators, if it is none.
pub open spec fn ciphertext_error(ct: UpkeCiphertext, ell: int) -> Option<UpkeError> {
    if !ciphertext_len_ok(ct, ell) {
        Some(UpkeError::InvalidLength)
    } else if !ciphertext_encoded(ct, ell) {
        Some(UpkeError::InvalidGroupElement)
    } else {
        None
    }
}

/// Why `ct` does not decrypt under the secret key `sk`, if it does not.
pub open spec fn dec_error(sk: Seq<u8>, ct: UpkeCiphertext, ell: int) -> Option<UpkeError> {
    if !ciphertext_len_ok(ct, ell) {
        Some(UpkeError::InvalidLength)
    } else if secret_key_error(sk, ell) is Some {
        secret_key_error(sk, ell)
    } else if !ciphertext_encoded(ct, ell) {
        Some(UpkeError::InvalidPoint)
    } else {
        None
    }
}

/// The logarithm of the plaintext of `ct` under `sk`: `c - (x_1*f_1 + ... + x_ell*f_ell)`.
pub open spec fn decrypted(sk: Seq<u8>, ct: UpkeCiphertext, ell: nat) -> int {
    (log_of(ct.ciphertext@) - dot(logs_at(ct.kem_output@, ell), scalars_at(sk, ell))) % order()
}

/// `ct` encrypts the element with logarithm `m` to the public key `(g, h)` with
/// randomness `r`: `f_i = r*g_i` and `c = r*h + m`.
pub open spec fn is_encryption(ct: UpkeCiphertext, g: Seq<int>, h: int, r: int, m: int) -> bool {
    &&& ct.kem_output@.len() == 32 * g.len()
    &&& forall|i: int|
        0 <= i < g.len() ==> encodes_point(
            #[trigger] block(ct.kem_output@, i),
            (g[i] * r) % order(),
        )
    &&& encodes_point(ct.ciphertext@, (h * r + m) % order())
}

/// Bit `i` of `seed`, counted from the lowest bit of the first byte.
pub open spec fn delta_bit(seed: Seq<u8>, i: int) -> u8 {
    (seed[i / 8] >> ((i % 8) as u8)) & 1u8
}

/// The first `ell` bits of `seed`.
pub open spec fn delta(seed: Seq<u8>, ell: nat) -> Seq<int> {
    Seq::new(ell, |i: int| delta_bit(seed, i) as int)
}

/// The label under which the randomness of a token is derived, `upke-ri`.
pub open spec fn token_label() -> Seq<u8> {
    seq![0x75u8, 0x70, 0x6b, 0x65, 0x2d, 0x72, 0x69]
}

/// The scalar that is derived from `seed` under `label` for index `i`.
pub open spec fn derived_scalar(seed: Seq<u8>, label: Seq<u8>, i: int) -> int {
    le_value(sha512_digest(seed + label + le_bytes(i, 4))) % order()
}

/// `token` and `new_pk` are the update of `pk` by the bits of `seed`: every ciphertext of
/// the token encrypts its bit, as a multiple of the base point, to `pk`; the new key has the
/// generators of `pk` and its last element is shifted by the generators whose bit is set.
pub open spec fn is_update(
    pk: Seq<u8>,
    ell: nat,
    seed: Seq<u8>,
    token: Seq<UpkeCiphertext>,
    new_pk: Seq<u8>,
) -> bool {
    let g = logs_at(pk, ell);
    let h = log_at(pk, ell as int);
    let d = delta(seed, ell);
    &&& token.len() == ell
    &&& forall|i: int|
        0 <= i < ell ==> is_encryption(
            #[trigger] token[i],
            g,
            h,
            derived_scalar(seed, token_label(), i),
            d[i],
        )
    &&& new_pk.len() == 32 * (ell + 1)
    &&& forall|i: int| 0 <= i < ell ==> #[trigger] block(new_pk, i) == block(pk, i)
    &&& encodes_point(block(new_pk, ell as int), (h + dot(g, d)) % order())
}

/// `ct` decrypts under `sk` to a bit, as a multiple of the base point.
pub open spec fn carries_bit(sk: Seq<u8>, ct: UpkeCiphertext, ell: nat) -> bool {
    &&& dec_error(sk, ct, ell as int) is None
    &&& decrypted(sk, ct, ell) == 0 || decrypted(sk, ct, ell) == 1
}

/// Why `token` does not update `sk`, if it does not.
pub open spec fn upd_sk_error(sk: Seq<u8>, token: Seq<UpkeCiphertext>, ell: nat) -> Option<
    UpkeError,
> {
    if token.len() != ell {
        Some(UpkeError::InvalidLength)
    } else if secret_key_error(sk, ell as int) is Some || exists|i: int|
        0 <= i < ell && !carries_bit(sk, #[trigger] token[i], ell) {
        Some(UpkeError::InvalidUpdateToken)
    } else {
        None
    }
}

/// `new_sk` is `sk` with every scalar shifted by the plaintext of its ciphertext in `token`.
pub open spec fn is_updated_secret(
    sk: Seq<u8>,
    ell: nat,
    token: Seq<UpkeCiphertext>,
    new_sk: Seq<u8>,
) -> bool {
    &&& new_sk.len() == 32 * ell
    &&& all_canonical(new_sk, ell as int)
    &&& forall|i: int|
        0 <= i < ell ==> #[trigger] le_value(block(new_sk, i)) == (le_value(block(sk, i))
            + decrypted(sk, token[i], ell)) % order()
}

/// `pk` is the public key of `sk`: its last element is the combination of its generators
/// by the scalars of `sk`.
pub open spec fn is_key_pair(sk: Seq<u8>, pk: Seq<u8>, ell: nat) -> bool {
    &&& secret_key_error(sk, ell as int) is None
    &&& public_key_error(pk, ell as int) is None
    &&& log_at(pk, ell as int) == dot(logs_at(pk, ell), scalars_at(sk, ell)) % order()
}

/// The digest that is hashed to the group for the generator with index `i`.
pub open spec fn generator_input(domain: Seq<u8>, seed_g: Seq<u8>, i: int) -> Seq<u8> {
    sha512_digest(domain + seed_g + be_bytes(i, 4))
}

/// Derives the generator with index `i` by hashing to the group.
fn derive_g_i(domain: &[u8], seed_g: &[u8], i: u32) -> (res: Point)
    ensures
        res.wf(),
        res.log() == hashed_log(generator_input(domain@, seed_g@, i as int)),
{
    let mut index: Vec<u8> = Vec::new();
    append_be(&mut index, i as u64, 4);
    assert(index@ =~= be_bytes(i as int, 4));
    let digest = sha512(domain, seed_g, index.as_slice());
    hash_to_point(digest.as_slice())
}

/// Derives `g_1..g_ell` by hashing to the group with domain separation.
pub fn derive_generators(domain: &[u8], seed_g: &[u8], ell: usize) -> (res: Vec<Point>)
    requires
        ell <= u32::MAX,
    ensures
        res@.len() == ell,
        all_points(res@),
        forall|i: int|
            0 <= i < ell ==> (#[trigger] res@[i]).log() == hashed_log(
                generator_input(domain@, seed_g@, i + 1),
            ),
{
    let mut res: Vec<Point> = Vec::new();
    let mut i: usize = 0;
    while i < ell
        invariant
            i <= ell <= u32::MAX,
            res@.len() == i,
            all_points(res@),
            forall|j: int|
                0 <= j < i ==> (#[trigger] res@[j]).log() == hashed_log(
                    generator_input(domain@, seed_g@, j + 1),
                ),
        decreases ell - i,
    {
        let p = derive_g_i(domain, seed_g, i as u32 + 1);
        res.push(p);
        i += 1;
    }
    res
}

/// Draws `x_1..x_ell`.
pub fn sample_scalars(rng: &mut SeededRng, ell: usize) -> (res: Vec<Scalar>)
    requires
        old(rng).wf(),
    ensures
        res@.len() == ell,
        all_scalars(res@),
        forall|i: int|
            0 <= i < ell ==> (#[trigger] res@[i]).value() == stream_scalar(
                old(rng).seed@,
                old(rng).pos_after(16 * i),
            ),
        *final(rng) == old(rng).advanced(16 * ell),
        final(rng).wf(),
{
    let mut res: Vec<Scalar> = Vec::new();
    let mut i: usize = 0;
    while i < ell
        invariant
            i <= ell,
            rng.wf(),
            *rng == old(rng).advanced(16 * i),
            res@.len() == i,
            all_scalars(res@),
            forall|j: int|
                0 <= j < i ==> (#[trigger] res@[j]).value() == stream_scalar(
                    old(rng).seed@,
                    old(rng).pos_after(16 * j),
                ),
        decreases ell - i,
    {
        let s = rng.random_scalar();
        res.push(s);
        i += 1;
        proof {
            vstd::arithmetic::div_mod::lemma_add_mod_noop(
                old(rng).word_pos + 16 * (i - 1),
                16,
                period(),
            );
        }
    }
    res
}

/// The combination `x_1*g_1 + ... + x_ell*g_ell`.
pub fn compute_h(g: &[Point], x: &[Scalar]) -> (res: Point)
    requires
        g@.len() == x@.len(),
        all_points(g@),
        all_scalars(x@),
    ensures
        res.wf(),
        res.log() == dot(logs(g@), values(x@)) % order(),
{
    multiscalar_mul(x, g)
}

/// Serializes a public key as `g_1||...||g_ell||h`.
pub fn serialize_public_key(g: &[Point], h: &Point) -> (res: UpkePublicKey)
    ensures
        res.bytes@ == concat(point_blocks(g@)) + h.bytes@,
{
    let mut out: Vec<u8> = Vec::new();
    let mut i: usize = 0;
    while i < g.len()
        invariant
            i <= g@.len(),
            out@ == concat(point_blocks(g@.take(i as int))),
        decreases g@.len() - i,
    {
        append(&mut out, g[i].bytes.as_slice());
        i += 1;
        proof {
            let now = point_blocks(g@.take(i as int));
            assert(now.drop_last() =~= point_blocks(g@.take(i - 1)));
            assert(now.last() == g@[i - 1].bytes@);
        }
    }
    assert(g@.take(g@.len() as int) =~= g@);
    append(&mut out, h.bytes.as_slice());
    UpkePublicKey { bytes: out }
}

/// Serializes a secret key as `x_1||...||x_ell`.
pub fn serialize_secret_key(x: &[Scalar]) -> (res: UpkeSecretKey)
    ensures
        res.bytes@ == concat(scalar_blocks(x@)),
{
    let mut out: Vec<u8> = Vec::new();
    let mut i: usize = 0;
    while i < x.len()
        invariant
            i <= x@.len(),
            out@ == concat(scalar_blocks(x@.take(i as int))),
        decreases x@.len() - i,
    {
        append(&mut out, x[i].bytes.as_slice());
        i += 1;
        proof {
            let now = scalar_blocks(x@.take(i as int));
            assert(now.drop_last() =~= scalar_blocks(x@.take(i - 1)));
            assert(now.last() == x@[i - 1].bytes@);
        }
    }
    assert(x@.take(x@.len() as int) =~= x@);
    UpkeSecretKey { bytes: out }
}

/// Parses a public key into `g_1..g_ell` and `h`.
pub fn parse_public_key(pk: &UpkePublicKey, ell: usize) -> (res: Result<
    (Vec<Point>, Point),
    UpkeError,
>)
    requires
        32 * (ell + 1) <= usize::MAX,
    ensures
        match public_key_error(pk.bytes@, ell as int) {
            Some(e) => res == Err::<(Vec<Point>, Point), UpkeError>(e),
            None => {
                &&& res matches Ok((g, h))
                &&& g@.len() == ell
                &&& all_points(g@)
                &&& h.wf()
                &&& forall|i: int|
                    0 <= i < ell ==> (#[trigger] g@[i]).bytes@ == block(pk.bytes@, i)
                &&& h.bytes@ == block(pk.bytes@, ell as int)
            },
        },
{
    let b = pk.bytes.as_slice();
    if b.len() != (ell + 1) * 32 {
        return Err(UpkeError::InvalidLength);
    }
    let mut g: Vec<Point> = Vec::new();
    let mut i: usize = 0;
    while i < ell
        invariant
            i <= ell,
            b@ == pk.bytes@,
            b@.len() == 32 * (ell + 1) <= usize::MAX,
            g@.len() == i,
            all_points(g@),
            forall|j: int| 0 <= j < i ==> (#[trigger] g@[j]).bytes@ == block(b@, j),
        decreases ell - i,
    {
        match decompress(read_block(b, i * 32)) {
            Some(p) => g.push(p),
            None => {
                assert(point_log(block(b@, i as int)) is None);
                return Err(UpkeError::InvalidGroupElement);
            },
        }
        i += 1;
    }
    match decompress(read_block(b, ell * 32)) {
        Some(h) => {
            assert forall|j: int| 0 <= j < ell + 1 implies (#[trigger] point_log(
                block(b@, j),
            )) is Some by {
                if j < ell {
                    assert(g@[j].wf());
                }
            }
            Ok((g, h))
        },
        None => {
            assert(point_log(block(b@, ell as int)) is None);
            Err(UpkeError::InvalidGroupElement)
        },
    }
}

/// Parses a secret key into `x_1..x_ell`.
pub fn parse_secret_key(sk: &UpkeSecretKey, ell: usize) -> (res: Result<Vec<Scalar>, UpkeError>)
    requires
        32 * ell <= usize::MAX,
    ensures
        match secret_key_error(sk.bytes@, ell as int) {
            Some(e) => res == Err::<Vec<Scalar>, UpkeError>(e),
            None => {
                &&& res matches Ok(x)
                &&& x@.len() == ell
                &&& all_scalars(x@)
                &&& forall|i: int|
                    0 <= i < ell ==> (#[trigger] x@[i]).bytes@ == block(sk.bytes@, i)
            },
        },
{
    let b = sk.bytes.as_slice();
    if b.len() != ell * 32 {
        return Err(UpkeError::InvalidLength);
    }
    let mut x: Vec<Scalar> = Vec::new();
    let mut i: usize = 0;
    while i < ell
        invariant
            i <= ell,
            b@ == sk.bytes@,
            b@.len() == 32 * ell <= usize::MAX,
            x@.len() == i,
            all_scalars(x@),
            forall|j: int| 0 <= j < i ==> (#[trigger] x@[j]).bytes@ == block(b@, j),
        decreases ell - i,
    {
        match scalar_from_canonical(read_block(b, i * 32)) {
            Some(s) => x.push(s),
            None => {
                assert(le_value(block(b@, i as int)) >= order());
                return Err(UpkeError::InvalidScalar);
            },
        }
        i += 1;
    }
    assert forall|j: int| 0 <= j < ell implies #[trigger] le_value(block(b@, j)) < order() by {
        assert(x@[j].wf());
    }
    Ok(x)
}

/// Decrypts `ct` under `sk`: `c - (x_1*f_1 + ... + x_ell*f_ell)`.
pub fn upke_dec(sk: &UpkeSecretKey, ct: &UpkeCiphertext, ell: usize) -> (res: Result<
    Point,
    UpkeError,
>)
    requires
        32 * ell <= usize::MAX,
    ensures
        match dec_error(sk.bytes@, *ct, ell as int) {
            Some(e) => res == Err::<Point, UpkeError>(e),
            None => {
                &&& res matches Ok(m)
                &&& m.wf()
                &&& m.log() == decrypted(sk.bytes@, *ct, ell as nat)
            },
        },
{
    if ct.kem_output.len() != ell * 32 || ct.ciphertext.len() != 32 {
        return Err(UpkeError::InvalidLength);
    }
    let s = match parse_secret_key(sk, ell) {
        Ok(s) => s,
        Err(e) => return Err(e),
    };
    let c = match decompress(read_block(ct.ciphertext.as_slice(), 0)) {
        Some(c) => c,
        None => {
            assert(ct.ciphertext@.subrange(0, 32) =~= ct.ciphertext@);
            return Err(UpkeError::InvalidPoint);
        },
    };
    assert(ct.ciphertext@.subrange(0, 32) =~= ct.ciphertext@);
    let kem = ct.kem_output.as_slice();
    let mut f: Vec<Point> = Vec::new();
    let mut i: usize = 0;
    while i < ell
        invariant
            i <= ell,
            kem@ == ct.kem_output@,
            kem@.len() == 32 * ell <= usize::MAX,
            ct.ciphertext@.len() == 32,
            secret_key_error(sk.bytes@, ell as int) is None,
            f@.len() == i,
            all_points(f@),
            forall|j: int| 0 <= j < i ==> (#[trigger] f@[j]).bytes@ == block(kem@, j),
        decreases ell - i,
    {
        match decompress(read_block(kem, i * 32)) {
            Some(f_i) => f.push(f_i),
            None => {
                assert(point_log(block(kem@, i as int)) is None);
                return Err(UpkeError::InvalidPoint);
            },
        }
        i += 1;
    }
    proof {
        assert forall|j: int| 0 <= j < ell implies (#[trigger] point_log(block(kem@, j)))
            is Some by {
            assert(f@[j].wf());
        }
        assert(logs(f@) =~= logs_at(kem@, ell as nat));
        assert(values(s@) =~= scalars_at(sk.bytes@, ell as nat));
    }
    let mask = compute_h(f.as_slice(), s.as_slice());
    let m = point_minus(&c, &mask);
    proof {
        vstd::arithmetic::div_mod::lemma_sub_mod_noop(
            c.log(),
            dot(logs_at(kem@, ell as nat), scalars_at(sk.bytes@, ell as nat)),
            order(),
        );
        vstd::arithmetic::div_mod::lemma_small_mod(c.log() as nat, order() as nat);
    }
    Ok(m)
}

/// Parses a ciphertext into `f_1..f_ell` and `c`.
pub fn parse_ciphertext(ct: &UpkeCiphertext, ell: usize) -> (res: Result<
    (Vec<Point>, Point),
    UpkeError,
>)
    requires
        32 * ell <= usize::MAX,
    ensures
        match ciphertext_error(*ct, ell as int) {
            Some(e) => res == Err::<(Vec<Point>, Point), UpkeError>(e),
            None => {
                &&& res matches Ok((f, c))
                &&& f@.len() == ell
                &&& all_points(f@)
                &&& c.wf()
                &&& forall|i: int|
                    0 <= i < ell ==> (#[trigger] f@[i]).bytes@ == block(ct.kem_output@, i)
                &&& c.bytes@ == ct.ciphertext@
            },
        },
{
    if ct.kem_output.len() != ell * 32 || ct.ciphertext.len() != 32 {
        return Err(UpkeError::InvalidLength);
    }
    let kem = ct.kem_output.as_slice();
    let mut f: Vec<Point> = Vec::new();
    let mut i: usize = 0;
    while i < ell
        invariant
            i <= ell,
            kem@ == ct.kem_output@,
            kem@.len() == 32 * ell <= usize::MAX,
            ct.ciphertext@.len() == 32,
            f@.len() == i,
            all_points(f@),
            forall|j: int| 0 <= j < i ==> (#[trigger] f@[j]).bytes@ == block(kem@, j),
        decreases ell - i,
    {
        match decompress(read_block(kem, i * 32)) {
            Some(p) => f.push(p),
            None => {
                assert(point_log(block(kem@, i as int)) is None);
                return Err(UpkeError::InvalidGroupElement);
            },
        }
        i += 1;
    }
    assert(ct.ciphertext@.subrange(0, 32) =~= ct.ciphertext@);
    match decompress(read_block(ct.ciphertext.as_slice(), 0)) {
        Some(c) => {
            assert forall|j: int| 0 <= j < ell implies (#[trigger] point_log(block(kem@, j))) is Some by {
                assert(f@[j].wf());
            }
            Ok((f, c))
        },
        None => Err(UpkeError::InvalidGroupElement),
    }
}

/// Encrypts `m` to the public key `(g, h)` with randomness `r`.
pub fn u_enc_delta(g: &[Point], h: &Point, r: &Scalar, m: &Point) -> (res: UpkeCiphertext)
    requires
        all_points(g@),
        h.wf(),
        r.wf(),
        m.wf(),
    ensures
        is_encryption(res, logs(g@), h.log(), r.value(), m.log()),
{
    let mut kem_output: Vec<u8> = Vec::new();
    let mut j: usize = 0;
    while j < g.len()
        invariant
            j <= g@.len(),
            all_points(g@),
            r.wf(),
            kem_output@.len() == 32 * j,
            forall|i: int|
                0 <= i < j ==> encodes_point(
                    #[trigger] block(kem_output@, i),
                    (g@[i].log() * r.value()) % order(),
                ),
        decreases g@.len() - j,
    {
        let ghost before = kem_output@;
        let f_j = point_times(&g[j], r);
        append(&mut kem_output, f_j.bytes.as_slice());
        proof {
            assert forall|i: int| 0 <= i < j + 1 implies encodes_point(
                #[trigger] block(kem_output@, i),
                (g@[i].log() * r.value()) % order(),
            ) by {
                if i < j {
                    assert(block(kem_output@, i) =~= block(before, i));
                } else {
                    assert(block(kem_output@, i) =~= f_j.bytes@);
                }
            }
        }
        j += 1;
    }
    let masked = point_times(h, r);
    let c = point_plus(&masked, m);
    proof {
        vstd::arithmetic::div_mod::lemma_add_mod_noop(h.log() * r.value(), m.log(), order());
        vstd::arithmetic::div_mod::lemma_small_mod(m.log() as nat, order() as nat);
    }
    let mut ciphertext: Vec<u8> = Vec::new();
    append(&mut ciphertext, c.bytes.as_slice());
    assert(ciphertext@ =~= c.bytes@);
    UpkeCiphertext { kem_output, ciphertext }
}

/// The products of each of the points with each of the scalars.
fn multiples(g: &[Point], rs: &[Scalar]) -> (res: Vec<Vec<Point>>)
    requires
        all_points(g@),
        all_scalars(rs@),
    ensures
        are_multiples(res@, g@, rs@),
{
    let mut columns: Vec<Vec<Point>> = Vec::new();
    let n: usize = g.len();
    let mut j: usize = 0;
    while j < n
        invariant
            j <= n,
            n == g@.len(),
            all_points(g@),
            all_scalars(rs@),
            columns@.len() == j,
            forall|k: int| 0 <= k < j ==> is_column((#[trigger] columns@[k])@, g@[k], rs@),
        decreases n - j,
    {
        columns.push(point_times_each(&g[j], rs));
        j += 1;
    }
    columns
}

/// `column` holds the products of `p` with each of the scalars.
spec fn is_column(column: Seq<Point>, p: Point, rs: Seq<Scalar>) -> bool {
    &&& column.len() == rs.len()
    &&& all_points(column)
    &&& forall|i: int|
        0 <= i < rs.len() ==> (#[trigger] column[i]).log() == (p.log() * rs[i].value()) % order()
}

/// `columns` hold the products of each of the points with each of the scalars.
spec fn are_multiples(columns: Seq<Vec<Point>>, g: Seq<Point>, rs: Seq<Scalar>) -> bool {
    &&& columns.len() == g.len()
    &&& forall|k: int| 0 <= k < g.len() ==> is_column((#[trigger] columns[k])@, g[k], rs)
}

/// Encrypts each of `ms` to the public key `(g, h)` with the randomness at its position.
pub fn u_enc_delta_each(g: &[Point], h: &Point, rs: &[Scalar], ms: &[Point]) -> (res: Vec<
    UpkeCiphertext,
>)
    requires
        all_points(g@),
        h.wf(),
        all_scalars(rs@),
        all_points(ms@),
        rs@.len() == ms@.len(),
    ensures
        res@.len() == rs@.len(),
        forall|i: int|
            0 <= i < rs@.len() ==> is_encryption(
                #[trigger] res@[i],
                logs(g@),
                h.log(),
                rs@[i].value(),
                ms@[i].log(),
            ),
{
    let columns = multiples(g, rs);
    let masks = point_times_each(h, rs);
    let n: usize = g.len();
    let count: usize = rs.len();
    let mut out: Vec<UpkeCiphertext> = Vec::new();
    let mut i: usize = 0;
    while i < count
        invariant
            i <= count,
            count == rs@.len(),
            count == ms@.len(),
            n == g@.len(),
            h.wf(),
            all_points(ms@),
            are_multiples(columns@, g@, rs@),
            is_column(masks@, *h, rs@),
            out@.len() == i,
            forall|k: int|
                0 <= k < i ==> is_encryption(
                    #[trigger] out@[k],
                    logs(g@),
                    h.log(),
                    rs@[k].value(),
                    ms@[k].log(),
                ),
        decreases count - i,
    {
        let mut kem_output: Vec<u8> = Vec::new();
        let mut j: usize = 0;
        while j < n
            invariant
                j <= n,
                n == g@.len(),
                i < rs@.len(),
                are_multiples(columns@, g@, rs@),
                kem_output@.len() == 32 * j,
                forall|k: int|
                    0 <= k < j ==> encodes_point(
                        #[trigger] block(kem_output@, k),
                        (g@[k].log() * rs@[i as int].value()) % order(),
                    ),
            decreases n - j,
        {
            let ghost before = kem_output@;
            assert(is_column(columns@[j as int]@, g@[j as int], rs@));
            assert(columns@[j as int]@[i as int].wf());
            append(&mut kem_output, columns[j][i].bytes.as_slice());
            proof {
                assert forall|k: int| 0 <= k < j + 1 implies encodes_point(
                    #[trigger] block(kem_output@, k),
                    (g@[k].log() * rs@[i as int].value()) % order(),
                ) by {
                    if k < j {
                        assert(block(kem_output@, k) =~= block(before, k));
                    } else {
                        assert(block(kem_output@, k) =~= columns@[j as int]@[i as int].bytes@);
                    }
                }
            }
            j += 1;
        }
        assert(masks@[i as int].wf());
        assert(ms@[i as int].wf());
        let c = point_plus(&masks[i], &ms[i]);
        proof {
            let r = rs@[i as int].value();
            lemma_add_mod_noop(h.log() * r, ms@[i as int].log(), order());
            vstd::arithmetic::div_mod::lemma_small_mod(
                ms@[i as int].log() as nat,
                order() as nat,
            );
        }
        let mut ciphertext: Vec<u8> = Vec::new();
        append(&mut ciphertext, c.bytes.as_slice());
        assert(ciphertext@ =~= c.bytes@);
        out.push(UpkeCiphertext { kem_output, ciphertext });
        i += 1;
    }
    out
}

/// Derives a scalar from `seed` under `label` for index `i`.
fn derive_scalar(seed: &[u8; 32], label: &[u8], i: u32) -> (res: Scalar)
    ensures
        res.wf(),
        res.value() == derived_scalar(seed@, label@, i as int),
{
    let mut index: Vec<u8> = Vec::new();
    append_le(&mut index, i as u64, 4);
    assert(index@ =~= le_bytes(i as int, 4));
    let wide = sha512(seed.as_slice(), label, index.as_slice());
    scalar_from_wide(&wide)
}

/// The first `ell` bits of `seed`, one in each entry.
pub fn derive_delta_bits(seed: &[u8; 32], ell: usize) -> (res: Vec<u8>)
    requires
        ell <= 256,
    ensures
        res@.len() == ell,
        forall|i: int| 0 <= i < ell ==> #[trigger] res@[i] == delta_bit(seed@, i),
        forall|i: int| 0 <= i < ell ==> #[trigger] res@[i] <= 1,
{
    let mut res: Vec<u8> = Vec::new();
    let mut i: usize = 0;
    while i < ell
        invariant
            i <= ell <= 256,
            res@.len() == i,
            forall|j: int| 0 <= j < i ==> #[trigger] res@[j] == delta_bit(seed@, j),
            forall|j: int| 0 <= j < i ==> #[trigger] res@[j] <= 1,
        decreases ell - i,
    {
        let byte = seed[i / 8];
        let shift = (i % 8) as u8;
        let bit = (byte >> shift) & 1u8;
        assert((byte >> shift) & 1u8 <= 1u8) by (bit_vector);
        res.push(bit);
        i += 1;
    }
    res
}

/// Updates the public key `pk` by the bits of `seed`.
///
/// A key that parses and has more than 256 generators has no update: the seed has 256 bits.
pub fn upd_pk_from_seed(seed: &[u8; 32], pk: &UpkePublicKey, ell: usize) -> (res: Result<
    (UpkeUpdateToken, UpkePublicKey),
    UpkeError,
>)
    requires
        32 * (ell + 1) <= usize::MAX,
        ell <= 256 || public_key_error(pk.bytes@, ell as int) is Some,
    ensures
        match public_key_error(pk.bytes@, ell as int) {
            Some(_) => res == Err::<(UpkeUpdateToken, UpkePublicKey), UpkeError>(
                UpkeError::InvalidPoint,
            ),
            None => {
                &&& res matches Ok((token, new_pk))
                &&& is_update(pk.bytes@, ell as nat, seed@, token.0@, new_pk.bytes@)
            },
        },
{
    let (g, h) = match parse_public_key(pk, ell) {
        Ok(parsed) => parsed,
        Err(_) => return Err(UpkeError::InvalidPoint),
    };
    let bits = derive_delta_bits(seed, ell);
    let ghost d = delta(seed@, ell as nat);
    let ghost gs = logs_at(pk.bytes@, ell as nat);
    proof {
        assert(logs(g@) =~= gs);
    }
    let mut scalars: Vec<Scalar> = Vec::new();
    let mut k: usize = 0;
    while k < ell
        invariant
            k <= ell,
            bits@.len() == ell,
            scalars@.len() == k,
            all_scalars(scalars@),
            forall|j: int| 0 <= j < k ==> (#[trigger] scalars@[j]).value() == bits@[j],
        decreases ell - k,
    {
        scalars.push(scalar_from_u64(bits[k] as u64));
        k += 1;
    }
    assert(values(scalars@) =~= d);
    let shift = multiscalar_mul(scalars.as_slice(), g.as_slice());
    let h_prime = point_plus(&h, &shift);
    proof {
        vstd::arithmetic::div_mod::lemma_add_mod_noop(h.log(), dot(gs, d), order());
        vstd::arithmetic::div_mod::lemma_small_mod(h.log() as nat, order() as nat);
    }
    let new_pk = serialize_public_key(g.as_slice(), &h_prime);
    proof {
        lemma_public_key_blocks(g@, h_prime, new_pk.bytes@);
    }

    let label: [u8; 7] = [0x75u8, 0x70, 0x6b, 0x65, 0x2d, 0x72, 0x69];
    assert(label@ =~= token_label());
    let mut rs: Vec<Scalar> = Vec::new();
    let mut ms: Vec<Point> = Vec::new();
    let mut i: usize = 0;
    while i < ell
        invariant
            i <= ell <= 256,
            label@ == token_label(),
            bits@.len() == ell,
            forall|j: int| 0 <= j < ell ==> #[trigger] bits@[j] == delta_bit(seed@, j),
            forall|j: int| 0 <= j < ell ==> #[trigger] bits@[j] <= 1,
            d == delta(seed@, ell as nat),
            rs@.len() == i,
            all_scalars(rs@),
            forall|j: int|
                0 <= j < i ==> (#[trigger] rs@[j]).value() == derived_scalar(
                    seed@,
                    token_label(),
                    j,
                ),
            ms@.len() == i,
            all_points(ms@),
            forall|j: int| 0 <= j < i ==> (#[trigger] ms@[j]).log() == d[j],
        decreases ell - i,
    {
        rs.push(derive_scalar(seed, label.as_slice(), i as u32));
        assert(d[i as int] == bits@[i as int]);
        if bits[i] == 1 {
            ms.push(basepoint());
        } else {
            ms.push(identity());
        }
        i += 1;
    }
    let cts = u_enc_delta_each(g.as_slice(), &h, rs.as_slice(), ms.as_slice());
    Ok((UpkeUpdateToken(cts), new_pk))
}

/// Blocks of a serialized public key.
proof fn lemma_public_key_blocks(g: Seq<Point>, h: Point, b: Seq<u8>)
    requires
        b == concat(point_blocks(g)) + h.bytes@,
    ensures
        b.len() == 32 * (g.len() + 1),
        forall|i: int| 0 <= i < g.len() ==> #[trigger] block(b, i) == g[i].bytes@,
        block(b, g.len() as int) == h.bytes@,
{
    let parts = point_blocks(g);
    assert forall|i: int| 0 <= i < parts.len() implies (#[trigger] parts[i]).len() == 32 by {
        assert(parts[i] == g[i].bytes@);
    }
    lemma_concat_blocks(parts);
    assert forall|i: int| 0 <= i < g.len() implies #[trigger] block(b, i) == g[i].bytes@ by {
        assert(block(concat(parts), i) == parts[i]);
        assert(block(b, i) =~= block(concat(parts), i));
    }
    assert(block(b, g.len() as int) =~= h.bytes@);
}

/// Whether `res` is the update of the public key `pk` by the next 32 bytes of `before`, which
/// leaves the generator at `after`, or the error if the key does not parse, with nothing drawn.
pub open spec fn is_drawn_update(
    before: SeededRng,
    after: SeededRng,
    pk: Seq<u8>,
    ell: nat,
    res: Result<(UpkeUpdateToken, UpkePublicKey), UpkeError>,
) -> bool {
    match public_key_error(pk, ell as int) {
        Some(_) => {
            &&& res == Err::<(UpkeUpdateToken, UpkePublicKey), UpkeError>(UpkeError::InvalidPoint)
            &&& after == before
        },
        None => {
            &&& res matches Ok((token, new_pk))
            &&& is_update(
                pk,
                ell,
                stream_bytes(before.seed@, before.word_pos as int),
                token.0@,
                new_pk.bytes@,
            )
            &&& after == before.advanced(8)
        },
    }
}

/// Updates the public key `pk` by 32 drawn bytes. Nothing is drawn for a key that does
/// not parse.
pub fn upke_upd_pk(rng: &mut SeededRng, pk: &UpkePublicKey, ell: usize) -> (res: Result<
    (UpkeUpdateToken, UpkePublicKey),
    UpkeError,
>)
    requires
        old(rng).wf(),
        32 * (ell + 1) <= usize::MAX,
        ell <= 256 || public_key_error(pk.bytes@, ell as int) is Some,
    ensures
        final(rng).wf(),
        is_drawn_update(*old(rng), *final(rng), pk.bytes@, ell as nat, res),
{
    match parse_public_key(pk, ell) {
        Ok(_) => {
            let seed = rng.fill_bytes();
            upd_pk_from_seed(&seed, pk, ell)
        },
        Err(_) => Err(UpkeError::InvalidPoint),
    }
}

/// Updates the public key `pk` by 32 drawn bytes, if they have a bit for each generator:
/// for a key that parses and has more than 256 generators nothing is drawn or returned.
pub fn upke_try_upd_pk(rng: &mut SeededRng, pk: &UpkePublicKey, ell: usize) -> (res: Option<
    Result<(UpkeUpdateToken, UpkePublicKey), UpkeError>,
>)
    requires
        old(rng).wf(),
        32 * (ell + 1) <= usize::MAX,
    ensures
        final(rng).wf(),
        match res {
            None => {
                &&& ell > 256
                &&& public_key_error(pk.bytes@, ell as int) is None
                &&& *final(rng) == *old(rng)
            },
            Some(updated) => {
                &&& ell <= 256 || public_key_error(pk.bytes@, ell as int) is Some
                &&& is_drawn_update(*old(rng), *final(rng), pk.bytes@, ell as nat, updated)
            },
        },
{
    if ell > 256 && parse_public_key(pk, ell).is_ok() {
        return None;
    }
    Some(upke_upd_pk(rng, pk, ell))
}

/// Updates the secret key `sk` by the bits that `token` carries.
pub fn upke_upd_sk(sk: &UpkeSecretKey, token: &UpkeUpdateToken, ell: usize) -> (res: Result<
    UpkeSecretKey,
    UpkeError,
>)
    requires
        token.0@.len() == ell ==> 32 * ell <= usize::MAX,
    ensures
        match upd_sk_error(sk.bytes@, token.0@, ell as nat) {
            Some(e) => res == Err::<UpkeSecretKey, UpkeError>(e),
            None => {
                &&& res matches Ok(new_sk)
                &&& is_updated_secret(sk.bytes@, ell as nat, token.0@, new_sk.bytes@)
            },
        },
{
    if token.0.len() != ell {
        return Err(UpkeError::InvalidLength);
    }
    let mut s = match parse_secret_key(sk, ell) {
        Ok(s) => s,
        Err(_) => return Err(UpkeError::InvalidUpdateToken),
    };
    let ghost s0 = s@;
    let id = identity();
    let bp = basepoint();
    let one = scalar_from_u64(1);
    let mut i: usize = 0;
    while i < ell
        invariant
            i <= ell,
            32 * ell <= usize::MAX,
            token.0@.len() == ell,
            secret_key_error(sk.bytes@, ell as int) is None,
            id.wf(),
            id.log() == 0,
            bp.wf(),
            bp.log() == 1,
            one.wf(),
            one.value() == 1,
            s@.len() == ell,
            s0.len() == ell,
            all_scalars(s@),
            forall|j: int| 0 <= j < ell ==> (#[trigger] s0[j]).bytes@ == block(sk.bytes@, j),
            forall|j: int| i <= j < ell ==> #[trigger] s@[j] == s0[j],
            forall|j: int|
                0 <= j < i ==> carries_bit(sk.bytes@, #[trigger] token.0@[j], ell as nat),
            forall|j: int|
                0 <= j < i ==> (#[trigger] s@[j]).value() == (le_value(block(sk.bytes@, j))
                    + decrypted(sk.bytes@, token.0@[j], ell as nat)) % order(),
        decreases ell - i,
    {
        let m_i = match upke_dec(sk, &token.0[i], ell) {
            Ok(m_i) => m_i,
            Err(_) => {
                assert(!carries_bit(sk.bytes@, token.0@[i as int], ell as nat));
                return Err(UpkeError::InvalidUpdateToken);
            },
        };
        let is_id = ct_eq(m_i.bytes.as_slice(), id.bytes.as_slice());
        let is_bp = ct_eq(m_i.bytes.as_slice(), bp.bytes.as_slice());
        assert(s@[i as int] == s0[i as int]);
        assert(s@[i as int].wf());
        if is_id == 1 && is_bp == 0 {
            assert(m_i.log() == 0);
            proof {
                vstd::arithmetic::div_mod::lemma_small_mod(
                    s@[i as int].value() as nat,
                    order() as nat,
                );
            }
        } else if is_id == 0 && is_bp == 1 {
            assert(m_i.log() == 1);
            let shifted = scalar_plus(&s[i], &one);
            s[i] = shifted;
        } else {
            assert(!carries_bit(sk.bytes@, token.0@[i as int], ell as nat));
            return Err(UpkeError::InvalidUpdateToken);
        }
        i += 1;
    }
    let new_sk = serialize_secret_key(s.as_slice());
    proof {
        lemma_secret_key_blocks(s@, new_sk.bytes@);
    }
    Ok(new_sk)
}

/// Blocks of a serialized secret key.
proof fn lemma_secret_key_blocks(x: Seq<Scalar>, b: Seq<u8>)
    requires
        b == concat(scalar_blocks(x)),
    ensures
        b.len() == 32 * x.len(),
        forall|i: int| 0 <= i < x.len() ==> #[trigger] block(b, i) == x[i].bytes@,
{
    let parts = scalar_blocks(x);
    assert forall|i: int| 0 <= i < parts.len() implies (#[trigger] parts[i]).len() == 32 by {
        assert(parts[i] == x[i].bytes@);
    }
    lemma_concat_blocks(parts);
    assert forall|i: int| 0 <= i < x.len() implies #[trigger] block(b, i) == x[i].bytes@ by {
        assert(block(concat(parts), i) == parts[i]);
    }
}

/// Checks that `tok` holds `ell` ciphertexts that parse. The error is that of the first
/// ciphertext that does not.
pub fn validate_update_token(tok: &UpkeUpdateToken, ell: usize) -> (res: Result<(), UpkeError>)
    requires
        tok.0@.len() == ell ==> 32 * ell <= usize::MAX,
    ensures
        res is Ok <==> tok.0@.len() == ell && forall|i: int|
            0 <= i < ell ==> ciphertext_error(#[trigger] tok.0@[i], ell as int) is None,
        match res {
            Ok(_) => true,
            Err(e) => if tok.0@.len() != ell {
                e == UpkeError::InvalidLength
            } else {
                exists|i: int|
                    0 <= i < ell && ciphertext_error(#[trigger] tok.0@[i], ell as int) == Some(e)
                        && forall|j: int|
                        0 <= j < i ==> ciphertext_error(#[trigger] tok.0@[j], ell as int) is None
            },
        },
{
    if tok.0.len() != ell {
        return Err(UpkeError::InvalidLength);
    }
    let mut i: usize = 0;
    while i < ell
        invariant
            i <= ell,
            32 * ell <= usize::MAX,
            tok.0@.len() == ell,
            forall|j: int|
                0 <= j < i ==> ciphertext_error(#[trigger] tok.0@[j], ell as int) is None,
        decreases ell - i,
    {
        match parse_ciphertext(&tok.0[i], ell) {
            Ok(_) => {},
            Err(e) => {
                assert(ciphertext_error(tok.0@[i as int], ell as int) == Some(e));
                return Err(e);
            },
        }
        i += 1;
    }
    Ok(())
}

/// A serialized public key parses, and to the elements that were serialized.
pub proof fn law_parse_serialized_public_key(g: Seq<Point>, h: Point)
    requires
        all_points(g),
        h.wf(),
    ensures
        public_key_error(concat(point_blocks(g)) + h.bytes@, g.len() as int) is None,
        forall|i: int|
            0 <= i < g.len() ==> #[trigger] block(concat(point_blocks(g)) + h.bytes@, i)
                == g[i].bytes@,
        block(concat(point_blocks(g)) + h.bytes@, g.len() as int) == h.bytes@,
{
    let b = concat(point_blocks(g)) + h.bytes@;
    lemma_public_key_blocks(g, h, b);
    assert forall|i: int| 0 <= i < g.len() + 1 implies (#[trigger] point_log(
        block(b, i),
    )) is Some by {
        if i < g.len() {
            assert(g[i].wf());
        }
    }
}

/// The elements of a public key that parses serialize to the bytes they were parsed from.
pub proof fn law_serialize_parsed_public_key(b: Seq<u8>, g: Seq<Point>, h: Point)
    requires
        b.len() == 32 * (g.len() + 1),
        forall|i: int| 0 <= i < g.len() ==> (#[trigger] g[i]).bytes@ == block(b, i),
        h.bytes@ == block(b, g.len() as int),
    ensures
        concat(point_blocks(g)) + h.bytes@ == b,
{
    let parts = point_blocks(g);
    assert forall|i: int| 0 <= i < parts.len() implies #[trigger] parts[i] == block(b, i) by {
        assert(g[i].bytes@ == block(b, i));
    }
    lemma_concat_of_blocks(parts, b);
    assert(concat(parts) + h.bytes@ =~= b);
}

/// A serialized secret key parses, and to the scalars that were serialized.
pub proof fn law_parse_serialized_secret_key(x: Seq<Scalar>)
    requires
        all_scalars(x),
    ensures
        secret_key_error(concat(scalar_blocks(x)), x.len() as int) is None,
        forall|i: int|
            0 <= i < x.len() ==> #[trigger] block(concat(scalar_blocks(x)), i) == x[i].bytes@,
{
    let b = concat(scalar_blocks(x));
    lemma_secret_key_blocks(x, b);
    assert forall|i: int| 0 <= i < x.len() implies #[trigger] le_value(block(b, i)) < order() by {
        assert(x[i].wf());
    }
}

/// The scalars of a secret key that parses serialize to the bytes they were parsed from.
pub proof fn law_serialize_parsed_secret_key(b: Seq<u8>, x: Seq<Scalar>)
    requires
        b.len() == 32 * x.len(),
        forall|i: int| 0 <= i < x.len() ==> (#[trigger] x[i]).bytes@ == block(b, i),
    ensures
        concat(scalar_blocks(x)) == b,
{
    let parts = scalar_blocks(x);
    assert forall|i: int| 0 <= i < parts.len() implies #[trigger] parts[i] == block(b, i) by {
        assert(x[i].bytes@ == block(b, i));
    }
    lemma_concat_of_blocks(parts, b);
    assert(concat(parts) =~= b);
}

/// A message encrypted to a public key decrypts, under its secret key, to itself.
pub proof fn law_decrypt_encrypted(
    sk: Seq<u8>,
    pk: Seq<u8>,
    ell: nat,
    r: int,
    m: int,
    ct: UpkeCiphertext,
)
    requires
        is_key_pair(sk, pk, ell),
        0 <= m < order(),
        is_encryption(ct, logs_at(pk, ell), log_at(pk, ell as int), r, m),
    ensures
        dec_error(sk, ct, ell as int) is None,
        decrypted(sk, ct, ell) == m,
{
    let g = logs_at(pk, ell);
    let h = log_at(pk, ell as int);
    let f = logs_at(ct.kem_output@, ell);
    let x = scalars_at(sk, ell);
    assert forall|i: int| 0 <= i < ell implies (#[trigger] point_log(
        block(ct.kem_output@, i),
    )) is Some by {
        assert(encodes_point(block(ct.kem_output@, i), (g[i] * r) % order()));
    }
    assert forall|i: int| 0 <= i < ell implies #[trigger] f[i] == (g[i] * r) % order() by {
        assert(encodes_point(block(ct.kem_output@, i), (g[i] * r) % order()));
    }
    lemma_dot_scaled(g, x, r, f);
    lemma_mul_mod_noop_left(dot(g, x), r, order());
    lemma_unmask(h, r, m, dot(f, x));
}

/// The token of an update is a valid token.
pub proof fn law_update_token_is_valid(
    pk: Seq<u8>,
    ell: nat,
    seed: Seq<u8>,
    token: Seq<UpkeCiphertext>,
    new_pk: Seq<u8>,
)
    requires
        is_update(pk, ell, seed, token, new_pk),
    ensures
        token.len() == ell,
        forall|i: int|
            0 <= i < ell ==> ciphertext_error(#[trigger] token[i], ell as int) is None,
{
    assert forall|i: int| 0 <= i < ell implies ciphertext_error(
        #[trigger] token[i],
        ell as int,
    ) is None by {
        let g = logs_at(pk, ell);
        let r = derived_scalar(seed, token_label(), i);
        assert forall|j: int| 0 <= j < ell implies (#[trigger] point_log(
            block(token[i].kem_output@, j),
        )) is Some by {
            assert(encodes_point(block(token[i].kem_output@, j), (g[j] * r) % order()));
        }
    }
}

/// The holder of the secret key accepts the token of every update of its public key, reads
/// from it the bits of the update, and ends with the secret key of the new public key. The
/// generators stay as they were.
pub proof fn law_update_keeps_key_pair(
    sk: Seq<u8>,
    pk: Seq<u8>,
    ell: nat,
    seed: Seq<u8>,
    token: Seq<UpkeCiphertext>,
    new_pk: Seq<u8>,
)
    requires
        is_key_pair(sk, pk, ell),
        is_update(pk, ell, seed, token, new_pk),
    ensures
        upd_sk_error(sk, token, ell) is None,
        forall|i: int|
            0 <= i < ell ==> decrypted(sk, #[trigger] token[i], ell) == delta_bit(seed, i),
        logs_at(new_pk, ell) == logs_at(pk, ell),
        forall|new_sk: Seq<u8>| #[trigger]
            is_updated_secret(sk, ell, token, new_sk) ==> is_key_pair(new_sk, new_pk, ell),
{
    let g = logs_at(pk, ell);
    let h = log_at(pk, ell as int);
    let d = delta(seed, ell);
    assert forall|i: int| 0 <= i < ell implies decrypted(sk, #[trigger] token[i], ell)
        == delta_bit(seed, i) && carries_bit(sk, token[i], ell) by {
        let byte = seed[i / 8];
        let shift = (i % 8) as u8;
        assert((byte >> shift) & 1u8 <= 1u8) by (bit_vector);
        assert(d[i] == delta_bit(seed, i));
        law_decrypt_encrypted(
            sk,
            pk,
            ell,
            derived_scalar(seed, token_label(), i),
            d[i],
            token[i],
        );
    }
    assert(logs_at(new_pk, ell) =~= g);
    assert forall|i: int| 0 <= i < ell + 1 implies (#[trigger] point_log(
        block(new_pk, i),
    )) is Some by {
        if i < ell {
            assert(point_log(block(pk, i)) is Some);
            assert(block(new_pk, i) == block(pk, i));
        }
    }
    assert forall|new_sk: Seq<u8>| #[trigger]
        is_updated_secret(sk, ell, token, new_sk) implies is_key_pair(new_sk, new_pk, ell) by {
        let x = scalars_at(sk, ell);
        let y = scalars_at(new_sk, ell);
        assert forall|i: int| 0 <= i < ell implies #[trigger] y[i] == (x[i] + d[i]) % order() by {
            assert(le_value(block(new_sk, i)) == (le_value(block(sk, i)) + decrypted(
                sk,
                token[i],
                ell,
            )) % order());
        }
        lemma_dot_shifted(g, x, d, y);
        lemma_add_mod_noop(dot(g, x), dot(g, d), order());
        lemma_add_mod_noop(h, dot(g, d), order());
        lemma_mod_twice(dot(g, x), order());
    }
}

/// The bits of an update are those of the seed, counted from the lowest bit of the first byte:
/// bit `i` is what is left over of the byte at `i / 8`, halved `i % 8` times, when it is divided
/// by 2. So seeds that differ in one of the bits give other bits.
pub proof fn law_update_bits_are_the_bits_of_the_seed(seed: Seq<u8>, other: Seq<u8>, ell: nat)
    requires
        ell <= 8 * seed.len(),
    ensures
        delta(seed, ell).len() == ell,
        forall|i: int|
            0 <= i < ell ==> #[trigger] delta(seed, ell)[i] == (seed[i / 8] as nat / pow2(
                (i % 8) as nat,
            )) % 2,
        forall|i: int|
            0 <= i < ell ==> #[trigger] delta_bit(seed, i) == (seed[i / 8] as nat / pow2(
                (i % 8) as nat,
            )) % 2,
        forall|i: int|
            0 <= i < ell && (#[trigger] seed[i / 8] as nat / pow2((i % 8) as nat)) % 2 != (other[i
                / 8] as nat / pow2((i % 8) as nat)) % 2 && ell <= 8 * other.len() ==> delta(
                seed,
                ell,
            ) != delta(other, ell),
        ell == 8 * seed.len() && other.len() == seed.len() && seed != other ==> delta(seed, ell)
            != delta(other, ell),
{
    assert forall|i: int| 0 <= i < ell implies #[trigger] delta_bit(seed, i) == (seed[i / 8] as nat
        / pow2((i % 8) as nat)) % 2 by {
        lemma_bit_of_byte(seed[i / 8], (i % 8) as u8);
    }
    assert forall|i: int| 0 <= i < ell implies #[trigger] delta(seed, ell)[i] == (seed[i
        / 8] as nat / pow2((i % 8) as nat)) % 2 by {
        assert(delta_bit(seed, i) == (seed[i / 8] as nat / pow2((i % 8) as nat)) % 2);
    }
    if ell <= 8 * other.len() {
        assert forall|i: int|
            0 <= i < ell && (#[trigger] seed[i / 8] as nat / pow2((i % 8) as nat)) % 2 != (other[i
                / 8] as nat / pow2((i % 8) as nat)) % 2 implies delta(seed, ell) != delta(
            other,
            ell,
        ) by {
            lemma_bit_of_byte(other[i / 8], (i % 8) as u8);
            assert(delta_bit(seed, i) == (seed[i / 8] as nat / pow2((i % 8) as nat)) % 2);
            assert(delta(seed, ell)[i] != delta(other, ell)[i]);
        }
    }
    if ell == 8 * seed.len() && other.len() == seed.len() && delta(seed, ell) == delta(other, ell) {
        assert forall|k: int| 0 <= k < seed.len() implies seed[k] == other[k] by {
            assert forall|s: u8| s < 8 implies (#[trigger] (seed[k] >> s)) & 1u8 == (other[k] >> s)
                & 1u8 by {
                let i = 8 * k + s;
                assert(i / 8 == k && i % 8 == s);
                assert(delta(seed, ell)[i] == delta(other, ell)[i]);
            }
            lemma_byte_of_bits(seed[k], other[k]);
        }
        assert(seed =~= other);
    }
}

/// A bit of a byte, by halving.
proof fn lemma_bit_of_byte(byte: u8, s: u8)
    requires
        s < 8,
    ensures
        ((byte >> s) & 1u8) == (byte as nat / pow2(s as nat)) % 2,
{
    vstd::bits::lemma_u8_shr_is_div(byte, s);
    let halved = byte >> s;
    assert(halved & 1u8 == halved % 2) by (bit_vector);
}

/// Bytes with the same bits are the same.
proof fn lemma_byte_of_bits(a: u8, b: u8)
    requires
        forall|s: u8| s < 8 ==> (#[trigger] (a >> s)) & 1u8 == (b >> s) & 1u8,
    ensures
        a == b,
{
    assert((a >> 0u8) & 1u8 == (b >> 0u8) & 1u8);
    assert((a >> 1u8) & 1u8 == (b >> 1u8) & 1u8);
    assert((a >> 2u8) & 1u8 == (b >> 2u8) & 1u8);
    assert((a >> 3u8) & 1u8 == (b >> 3u8) & 1u8);
    assert((a >> 4u8) & 1u8 == (b >> 4u8) & 1u8);
    assert((a >> 5u8) & 1u8 == (b >> 5u8) & 1u8);
    assert((a >> 6u8) & 1u8 == (b >> 6u8) & 1u8);
    assert((a >> 7u8) & 1u8 == (b >> 7u8) & 1u8);
    assert(a == b) by (bit_vector)
        requires
            (a >> 0u8) & 1u8 == (b >> 0u8) & 1u8,
            (a >> 1u8) & 1u8 == (b >> 1u8) & 1u8,
            (a >> 2u8) & 1u8 == (b >> 2u8) & 1u8,
            (a >> 3u8) & 1u8 == (b >> 3u8) & 1u8,
            (a >> 4u8) & 1u8 == (b >> 4u8) & 1u8,
            (a >> 5u8) & 1u8 == (b >> 5u8) & 1u8,
            (a >> 6u8) & 1u8 == (b >> 6u8) & 1u8,
            (a >> 7u8) & 1u8 == (b >> 7u8) & 1u8,
    ;
}

/// An update moves the public key by exactly the generators whose bit in the seed is set: the
/// new key has the old generators, byte for byte, and its last element is the old one plus the
/// sum of each generator times its bit.
pub proof fn law_update_adds_the_generators_of_the_set_bits(
    pk: Seq<u8>,
    ell: nat,
    seed: Seq<u8>,
    token: Seq<UpkeCiphertext>,
    new_pk: Seq<u8>,
)
    requires
        public_key_error(pk, ell as int) is None,
        ell <= 8 * seed.len(),
        is_update(pk, ell, seed, token, new_pk),
    ensures
        pk.len() == 32 * ell + 32,
        new_pk.len() == 32 * ell + 32,
        forall|i: int| 0 <= i < 32 * ell ==> #[trigger] new_pk[i] == pk[i],
        point_log(new_pk.skip(32 * ell as int)) == Some(
            (point_log(pk.skip(32 * ell as int))->0 + dot(
                Seq::new(ell, |i: int| point_log(pk.subrange(32 * i, 32 * i + 32))->0),
                Seq::new(
                    ell,
                    |i: int| ((seed[i / 8] as nat / pow2((i % 8) as nat)) % 2) as int,
                ),
            )) % order(),
        ),
{
    law_update_bits_are_the_bits_of_the_seed(seed, seed, ell);
    let g = Seq::new(ell, |i: int| point_log(pk.subrange(32 * i, 32 * i + 32))->0);
    let bits = Seq::new(ell, |i: int| ((seed[i / 8] as nat / pow2((i % 8) as nat)) % 2) as int);
    assert forall|i: int| 0 <= i < ell implies #[trigger] logs_at(pk, ell)[i] == g[i] by {
        assert(point_log(block(pk, i)) is Some);
    }
    assert(logs_at(pk, ell) =~= g);
    assert(delta(seed, ell) =~= bits);
    assert(pk.skip(32 * ell as int) =~= block(pk, ell as int));
    assert(new_pk.skip(32 * ell as int) =~= block(new_pk, ell as int));
    assert(point_log(block(pk, ell as int)) is Some);
    assert forall|i: int| 0 <= i < 32 * ell implies #[trigger] new_pk[i] == pk[i] by {
        let k = i / 32;
        assert(block(new_pk, k) == block(pk, k));
        assert(block(new_pk, k)[i % 32] == new_pk[i]);
        assert(block(pk, k)[i % 32] == pk[i]);
    }
}

/// Two updates of one key by seeds of which the second has bit `j` set in addition, and
/// otherwise the same bits, lead to keys whose last elements differ by the generator at `j`. An
/// update by a seed of zeros leaves the key as it is.
pub proof fn law_one_more_bit_adds_its_generator(
    pk: Seq<u8>,
    ell: nat,
    seed: Seq<u8>,
    token: Seq<UpkeCiphertext>,
    new_pk: Seq<u8>,
    other: Seq<u8>,
    other_token: Seq<UpkeCiphertext>,
    other_pk: Seq<u8>,
    j: int,
)
    requires
        public_key_error(pk, ell as int) is None,
        ell <= 8 * seed.len(),
        ell <= 8 * other.len(),
        is_update(pk, ell, seed, token, new_pk),
        is_update(pk, ell, other, other_token, other_pk),
        0 <= j < ell,
        (seed[j / 8] as nat / pow2((j % 8) as nat)) % 2 == 0,
        (other[j / 8] as nat / pow2((j % 8) as nat)) % 2 == 1,
        forall|i: int|
            0 <= i < ell && i != j ==> (#[trigger] seed[i / 8] as nat / pow2((i % 8) as nat)) % 2
                == (other[i / 8] as nat / pow2((i % 8) as nat)) % 2,
    ensures
        point_log(other_pk.skip(32 * ell as int)) == Some(
            (point_log(new_pk.skip(32 * ell as int))->0 + point_log(
                pk.subrange(32 * j, 32 * j + 32),
            )->0) % order(),
        ),
        (forall|i: int| 0 <= i < seed.len() ==> #[trigger] seed[i] == 0) ==> point_log(
            new_pk.skip(32 * ell as int),
        ) == Some(point_log(pk.skip(32 * ell as int))->0 % order()),
{
    law_update_bits_are_the_bits_of_the_seed(seed, seed, ell);
    law_update_bits_are_the_bits_of_the_seed(other, other, ell);
    law_update_adds_the_generators_of_the_set_bits(pk, ell, seed, token, new_pk);
    let g = logs_at(pk, ell);
    let h = log_at(pk, ell as int);
    let d = delta(seed, ell);
    let e = delta(other, ell);
    assert(e =~= d.update(j, d[j] + 1)) by {
        assert forall|i: int| 0 <= i < ell implies e[i] == d.update(j, d[j] + 1)[i] by {
            assert(d[i] == (seed[i / 8] as nat / pow2((i % 8) as nat)) % 2);
            assert(e[i] == (other[i / 8] as nat / pow2((i % 8) as nat)) % 2);
        }
    }
    crate::algebra::lemma_dot_moved(g, d, j, 1);
    assert(point_log(block(pk, j)) is Some);
    assert(new_pk.skip(32 * ell as int) =~= block(new_pk, ell as int));
    assert(other_pk.skip(32 * ell as int) =~= block(other_pk, ell as int));
    lemma_add_mod_noop(h + dot(g, d), g[j], order());
    lemma_add_mod_noop((h + dot(g, d)) % order(), g[j], order());
    lemma_mod_twice(h + dot(g, d), order());
    if forall|i: int| 0 <= i < seed.len() ==> #[trigger] seed[i] == 0 {
        assert forall|i: int| 0 <= i < ell implies #[trigger] d[i] == 0 by {
            assert(seed[i / 8] == 0);
            vstd::arithmetic::power2::lemma_pow2_pos((i % 8) as nat);
            vstd::arithmetic::div_mod::lemma_div_basics(pow2((i % 8) as nat) as int);
        }
        crate::algebra::lemma_dot_with_zeros(g, d);
        assert(pk.skip(32 * ell as int) =~= block(pk, ell as int));
        assert(point_log(block(pk, ell as int)) is Some);
    }
}

/// The token of an update carries at each place the bit of the seed, masked: each part of the
/// first half is a generator times `r`, and the second half is the last element of the key
/// times `r`, plus the bit times the base point. The number `r` is the hash of the seed, the
/// label `upke-ri` and the place as four bytes, reduced.
pub proof fn law_token_masks_the_bits_of_the_seed(
    pk: Seq<u8>,
    ell: nat,
    seed: Seq<u8>,
    token: Seq<UpkeCiphertext>,
    new_pk: Seq<u8>,
    i: int,
    j: int,
)
    requires
        public_key_error(pk, ell as int) is None,
        ell <= 256,
        seed.len() == 32,
        is_update(pk, ell, seed, token, new_pk),
        0 <= i < ell,
        0 <= j < ell,
    ensures
        ({
            let r = le_value(
                sha512_digest(
                    seed + seq![0x75u8, 0x70, 0x6b, 0x65, 0x2d, 0x72, 0x69] + seq![
                        i as u8,
                        0u8,
                        0u8,
                        0u8,
                    ],
                ),
            ) % order();
            &&& token.len() == ell
            &&& token[i].kem_output@.len() == 32 * ell
            &&& token[i].ciphertext@.len() == 32
            &&& point_log(token[i].kem_output@.subrange(32 * j, 32 * j + 32)) == Some(
                (point_log(pk.subrange(32 * j, 32 * j + 32))->0 * r) % order(),
            )
            &&& point_log(token[i].ciphertext@) == Some(
                (point_log(pk.skip(32 * ell as int))->0 * r + ((seed[i / 8] as nat / pow2(
                    (i % 8) as nat,
                )) % 2)) % order(),
            )
        }),
{
    law_update_bits_are_the_bits_of_the_seed(seed, seed, ell);
    let d = delta(seed, ell);
    assert(le_bytes(i, 4) =~= seq![i as u8, 0u8, 0u8, 0u8]) by {
        reveal_with_fuel(le_bytes, 5);
    }
    assert(token_label() =~= seq![0x75u8, 0x70, 0x6b, 0x65, 0x2d, 0x72, 0x69]);
    assert(is_encryption(
        token[i],
        logs_at(pk, ell),
        log_at(pk, ell as int),
        derived_scalar(seed, token_label(), i),
        d[i],
    ));
    assert(point_log(block(pk, j)) is Some);
    assert(point_log(block(pk, ell as int)) is Some);
    assert(logs_at(pk, ell)[j] == point_log(block(pk, j))->0);
    assert(pk.skip(32 * ell as int) =~= block(pk, ell as int));
    assert(encodes_point(
        block(token[i].kem_output@, j),
        (logs_at(pk, ell)[j] * derived_scalar(seed, token_label(), i)) % order(),
    ));
}

/// An update moves the secret key as it moves the public key: the token adds to the scalar at
/// each place the bit of the seed there, and nothing else. It is accepted whoever made it.
pub proof fn law_token_adds_the_bits_of_the_seed(
    sk: Seq<u8>,
    pk: Seq<u8>,
    ell: nat,
    seed: Seq<u8>,
    token: Seq<UpkeCiphertext>,
    new_pk: Seq<u8>,
    new_sk: Seq<u8>,
    i: int,
)
    requires
        is_key_pair(sk, pk, ell),
        ell <= 8 * seed.len(),
        is_update(pk, ell, seed, token, new_pk),
        is_updated_secret(sk, ell, token, new_sk),
        0 <= i < ell,
    ensures
        upd_sk_error(sk, token, ell) is None,
        new_sk.len() == 32 * ell,
        le_value(new_sk.subrange(32 * i, 32 * i + 32)) == (le_value(
            sk.subrange(32 * i, 32 * i + 32),
        ) + ((seed[i / 8] as nat / pow2((i % 8) as nat)) % 2)) % order(),
        is_key_pair(new_sk, new_pk, ell),
{
    law_update_bits_are_the_bits_of_the_seed(seed, seed, ell);
    law_update_keeps_key_pair(sk, pk, ell, seed, token, new_pk);
    assert(decrypted(sk, token[i], ell) == delta_bit(seed, i));
    assert(le_value(block(new_sk, i)) == (le_value(block(sk, i)) + decrypted(sk, token[i], ell))
        % order());
}

/// Bytes are a public key for `ell` generators exactly if there are 32 for each generator and
/// for the last element, and every 32 of them encode a group element. The length is looked at
/// first.
pub proof fn law_public_keys_are_encoded_elements(b: Seq<u8>, ell: int)
    ensures
        public_key_error(b, ell) is None <==> b.len() == 32 * ell + 32 && forall|i: int|
            0 <= i <= ell ==> point_log(#[trigger] b.subrange(32 * i, 32 * i + 32)) is Some,
        public_key_error(b, ell) == Some(UpkeError::InvalidLength) <==> b.len() != 32 * ell + 32,
        public_key_error(b, ell) is Some && b.len() == 32 * ell + 32 ==> public_key_error(b, ell)
            == Some(UpkeError::InvalidGroupElement),
{
    assert forall|i: int| 0 <= i <= ell && all_encoded(b, ell + 1) implies point_log(
        #[trigger] b.subrange(32 * i, 32 * i + 32),
    ) is Some by {
        assert(point_log(block(b, i)) is Some);
    }
    if forall|i: int|
        0 <= i <= ell ==> point_log(#[trigger] b.subrange(32 * i, 32 * i + 32)) is Some {
        assert forall|i: int| 0 <= i < ell + 1 implies (#[trigger] point_log(
            block(b, i),
        )) is Some by {
            assert(point_log(b.subrange(32 * i, 32 * i + 32)) is Some);
        }
    }
}

/// Bytes are a secret key for `ell` generators exactly if there are 32 for each of them, and
/// every 32 of them are, in little-endian order, a number below the order of the group. The
/// length is looked at first.
pub proof fn law_secret_keys_are_reduced_scalars(b: Seq<u8>, ell: int)
    ensures
        secret_key_error(b, ell) is None <==> b.len() == 32 * ell && forall|i: int|
            0 <= i < ell ==> le_value(#[trigger] b.subrange(32 * i, 32 * i + 32)) < order(),
        secret_key_error(b, ell) == Some(UpkeError::InvalidLength) <==> b.len() != 32 * ell,
        secret_key_error(b, ell) is Some && b.len() == 32 * ell ==> secret_key_error(b, ell)
            == Some(UpkeError::InvalidScalar),
{
    assert forall|i: int| 0 <= i < ell && all_canonical(b, ell) implies le_value(
        #[trigger] b.subrange(32 * i, 32 * i + 32),
    ) < order() by {
        assert(le_value(block(b, i)) < order());
    }
    if forall|i: int|
        0 <= i < ell ==> le_value(#[trigger] b.subrange(32 * i, 32 * i + 32)) < order() {
        assert forall|i: int| 0 <= i < ell implies #[trigger] le_value(block(b, i)) < order() by {
            assert(le_value(b.subrange(32 * i, 32 * i + 32)) < order());
        }
    }
}

/// A ciphertext parses exactly if its parts have their lengths and consist of encoded elements,
/// and it decrypts exactly if moreover the secret key parses. Lengths come first, and the key
/// before the elements.
pub proof fn law_ciphertexts_are_encoded_elements(sk: Seq<u8>, ct: UpkeCiphertext, ell: int)
    ensures
        ({
            let fits = ct.kem_output@.len() == 32 * ell && ct.ciphertext@.len() == 32;
            let encoded = point_log(ct.ciphertext@) is Some && forall|i: int|
                0 <= i < ell ==> point_log(
                    #[trigger] ct.kem_output@.subrange(32 * i, 32 * i + 32),
                ) is Some;
            &&& ciphertext_error(ct, ell) == (if !fits {
                Some(UpkeError::InvalidLength)
            } else if encoded {
                None
            } else {
                Some(UpkeError::InvalidGroupElement)
            })
            &&& dec_error(sk, ct, ell) == (if !fits || sk.len() != 32 * ell {
                Some(UpkeError::InvalidLength)
            } else if exists|i: int|
                0 <= i < ell && le_value(#[trigger] sk.subrange(32 * i, 32 * i + 32)) >= order() {
                Some(UpkeError::InvalidScalar)
            } else if encoded {
                None
            } else {
                Some(UpkeError::InvalidPoint)
            })
        }),
{
    let kem = ct.kem_output@;
    law_secret_keys_are_reduced_scalars(sk, ell);
    assert(all_encoded(kem, ell) <==> forall|i: int|
        0 <= i < ell ==> point_log(#[trigger] kem.subrange(32 * i, 32 * i + 32)) is Some) by {
        if all_encoded(kem, ell) {
            assert forall|i: int| 0 <= i < ell implies point_log(
                #[trigger] kem.subrange(32 * i, 32 * i + 32),
            ) is Some by {
                assert(point_log(block(kem, i)) is Some);
            }
        }
        if forall|i: int|
            0 <= i < ell ==> point_log(#[trigger] kem.subrange(32 * i, 32 * i + 32)) is Some {
            assert forall|i: int| 0 <= i < ell implies (#[trigger] point_log(
                block(kem, i),
            )) is Some by {
                assert(point_log(kem.subrange(32 * i, 32 * i + 32)) is Some);
            }
        }
    }
}

/// What a ciphertext decrypts to: its second half less the sum of each element of the first
/// half times the scalar at its place.
pub proof fn law_decryption_takes_off_the_mask(sk: Seq<u8>, ct: UpkeCiphertext, ell: nat)
    requires
        dec_error(sk, ct, ell as int) is None,
    ensures
        decrypted(sk, ct, ell) == (point_log(ct.ciphertext@)->0 - dot(
            Seq::new(ell, |i: int| point_log(ct.kem_output@.subrange(32 * i, 32 * i + 32))->0),
            Seq::new(ell, |i: int| le_value(sk.subrange(32 * i, 32 * i + 32))),
        )) % order(),
{
    let f = Seq::new(ell, |i: int| point_log(ct.kem_output@.subrange(32 * i, 32 * i + 32))->0);
    let x = Seq::new(ell, |i: int| le_value(sk.subrange(32 * i, 32 * i + 32)));
    assert forall|i: int| 0 <= i < ell implies logs_at(ct.kem_output@, ell)[i] == f[i] by {
        assert(point_log(block(ct.kem_output@, i)) is Some);
    }
    assert(logs_at(ct.kem_output@, ell) =~= f);
    assert(scalars_at(sk, ell) =~= x);
}

/// What an encryption is: the first half holds each generator times `r`, and the second the last
/// element of the key times `r`, plus the message.
pub proof fn law_encryption_masks_the_message(
    ct: UpkeCiphertext,
    g: Seq<int>,
    h: int,
    r: int,
    m: int,
    j: int,
)
    requires
        is_encryption(ct, g, h, r, m),
    ensures
        ct.kem_output@.len() == 32 * g.len(),
        ct.ciphertext@.len() == 32,
        0 <= j < g.len() ==> point_log(ct.kem_output@.subrange(32 * j, 32 * j + 32)) == Some(
            (g[j] * r) % order(),
        ),
        point_log(ct.ciphertext@) == Some((h * r + m) % order()),
{
    if 0 <= j < g.len() {
        assert(encodes_point(block(ct.kem_output@, j), (g[j] * r) % order()));
    }
}

/// A secret and a public key belong together exactly if both parse and the last element of the
/// public key is the sum of each generator times the scalar at its place.
pub proof fn law_key_pairs_combine_the_generators(sk: Seq<u8>, pk: Seq<u8>, ell: nat)
    requires
        secret_key_error(sk, ell as int) is None,
        public_key_error(pk, ell as int) is None,
    ensures
        is_key_pair(sk, pk, ell) <==> point_log(pk.skip(32 * ell as int))->0 == dot(
            Seq::new(ell, |i: int| point_log(pk.subrange(32 * i, 32 * i + 32))->0),
            Seq::new(ell, |i: int| le_value(sk.subrange(32 * i, 32 * i + 32))),
        ) % order(),
{
    let g = Seq::new(ell, |i: int| point_log(pk.subrange(32 * i, 32 * i + 32))->0);
    let x = Seq::new(ell, |i: int| le_value(sk.subrange(32 * i, 32 * i + 32)));
    assert forall|i: int| 0 <= i < ell implies logs_at(pk, ell)[i] == g[i] by {
        assert(point_log(block(pk, i)) is Some);
    }
    assert(logs_at(pk, ell) =~= g);
    assert(scalars_at(sk, ell) =~= x);
    assert(point_log(block(pk, ell as int)) is Some);
    assert(pk.skip(32 * ell as int) =~= block(pk, ell as int));
}

/// A token updates a secret key exactly if it has an entry for each scalar, the key parses, and
/// each entry decrypts to nothing or to the base point. Its length is looked at first.
pub proof fn law_tokens_carry_nothing_but_bits(
    sk: Seq<u8>,
    token: Seq<UpkeCiphertext>,
    ell: nat,
)
    ensures
        upd_sk_error(sk, token, ell) == Some(UpkeError::InvalidLength) <==> token.len() != ell,
        upd_sk_error(sk, token, ell) is None <==> token.len() == ell && secret_key_error(
            sk,
            ell as int,
        ) is None && forall|i: int|
            0 <= i < ell ==> dec_error(sk, #[trigger] token[i], ell as int) is None && (decrypted(
                sk,
                token[i],
                ell,
            ) == 0 || decrypted(sk, token[i], ell) == 1),
        token.len() == ell && upd_sk_error(sk, token, ell) is Some ==> upd_sk_error(sk, token, ell)
            == Some(UpkeError::InvalidUpdateToken),
{
    if token.len() == ell {
        if exists|i: int| 0 <= i < ell && !carries_bit(sk, #[trigger] token[i], ell) {
            let i = choose|i: int| 0 <= i < ell && !carries_bit(sk, #[trigger] token[i], ell);
            assert(!(dec_error(sk, token[i], ell as int) is None && (decrypted(sk, token[i], ell)
                == 0 || decrypted(sk, token[i], ell) == 1)));
        } else {
            assert forall|i: int| 0 <= i < ell implies dec_error(
                sk,
                #[trigger] token[i],
                ell as int,
            ) is None && (decrypted(sk, token[i], ell) == 0 || decrypted(sk, token[i], ell) == 1) by {
                assert(carries_bit(sk, token[i], ell));
            }
        }
    }
}

/// A secret key after an update has each scalar moved by what the entry of the token at its
/// place decrypts to, and no other length.
pub proof fn law_updated_scalars_move_by_the_token(
    sk: Seq<u8>,
    ell: nat,
    token: Seq<UpkeCiphertext>,
    new_sk: Seq<u8>,
    i: int,
)
    requires
        is_updated_secret(sk, ell, token, new_sk),
        0 <= i < ell,
    ensures
        new_sk.len() == 32 * ell,
        le_value(new_sk.subrange(32 * i, 32 * i + 32)) < order(),
        le_value(new_sk.subrange(32 * i, 32 * i + 32)) == (le_value(
            sk.subrange(32 * i, 32 * i + 32),
        ) + decrypted(sk, token[i], ell)) % order(),
{
    assert(le_value(block(new_sk, i)) < order());
    assert(le_value(block(new_sk, i)) == (le_value(block(sk, i)) + decrypted(sk, token[i], ell))
        % order());
}

/// A serialized public key is its elements, 32 bytes each, one behind the other and the last
/// element at the end; a serialized secret key is its scalars.
pub proof fn law_keys_are_laid_out_in_order(g: Seq<Point>, h: Point, x: Seq<Scalar>, i: int, k: int)
    requires
        0 <= k < 32,
    ensures
        (concat(point_blocks(g)) + h.bytes@).len() == 32 * g.len() + 32,
        (concat(point_blocks(g)) + h.bytes@)[32 * g.len() + k] == h.bytes@[k],
        0 <= i < g.len() ==> (concat(point_blocks(g)) + h.bytes@)[32 * i + k] == g[i].bytes@[k],
        concat(scalar_blocks(x)).len() == 32 * x.len(),
        0 <= i < x.len() ==> concat(scalar_blocks(x))[32 * i + k] == x[i].bytes@[k],
{
    let b = concat(point_blocks(g)) + h.bytes@;
    lemma_public_key_blocks(g, h, b);
    assert(block(b, g.len() as int)[k] == b[32 * g.len() + k]);
    if 0 <= i < g.len() {
        assert(block(b, i) == g[i].bytes@);
        assert(block(b, i)[k] == b[32 * i + k]);
    }
    let s = concat(scalar_blocks(x));
    lemma_secret_key_blocks(x, s);
    if 0 <= i < x.len() {
        assert(block(s, i) == x[i].bytes@);
        assert(block(s, i)[k] == s[32 * i + k]);
    }
}

/// A generator is hashed from the domain, the seed and its number, most significant byte first.
pub proof fn law_generators_are_numbered(domain: Seq<u8>, seed_g: Seq<u8>, i: u32)
    ensures
        generator_input(domain, seed_g, i as int) == sha512_digest(
            domain + seed_g + seq![
                (i / 0x100_0000) as u8,
                ((i / 0x1_0000) % 256) as u8,
                ((i / 256) % 256) as u8,
                (i % 256) as u8,
            ],
        ),
{
    let n = i as int;
    reveal_with_fuel(be_bytes, 5);
    assert(n / 256 / 256 == n / 0x1_0000);
    assert(n / 256 / 256 / 256 == n / 0x100_0000);
    assert((n / 0x100_0000) % 256 == n / 0x100_0000);
    assert(be_bytes(n, 4) =~= seq![
        (i / 0x100_0000) as u8,
        ((i / 0x1_0000) % 256) as u8,
        ((i / 256) % 256) as u8,
        (i % 256) as u8,
    ]);
}

/// An update by drawn bytes is the update by the next 32 bytes of the stream, which are used up;
/// for a key that does not parse nothing is drawn.
pub proof fn law_drawn_update_uses_the_next_bytes(
    before: SeededRng,
    after: SeededRng,
    pk: Seq<u8>,
    ell: nat,
    res: Result<(UpkeUpdateToken, UpkePublicKey), UpkeError>,
)
    requires
        before.wf(),
        is_drawn_update(before, after, pk, ell, res),
    ensures
        after.seed == before.seed,
        public_key_error(pk, ell as int) is Some ==> res is Err && res->Err_0
            == UpkeError::InvalidPoint && after.word_pos == before.word_pos,
        public_key_error(pk, ell as int) is None ==> res is Ok && after.word_pos == (
        before.word_pos + 8) % 0x1_0000_0000_0000_0000_0 && is_update(
            pk,
            ell,
            stream(before.seed@, before.word_pos as int, 32),
            res->Ok_0.0.0@,
            res->Ok_0.1.bytes@,
        ),
{
    law_draws_move_on(before, 8);
    law_stream_starts_over(before.seed@, before.word_pos as int, 32, 0);
}

} // verus!
