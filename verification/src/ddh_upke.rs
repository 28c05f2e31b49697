//! Updatable public-key encryption of a key that belongs to a leaf, with 32 random
//! generators.
//!
//! A secret key is a vector of 32 scalars, bits at first; its public key is a vector of
//! generators `g` with `h = s_1*g_1 + ... + s_32*g_32`. The holder of the public key can
//! update it: `h` moves by a random selection of the generators, and a token tells the
//! holder of the secret key, in encrypted form, which generators they were.

use crate::algebra::{lemma_dot_scaled, lemma_dot_shifted, lemma_unmask};
use crate::bytes::{append, block, copy_bytes, le_value, read_block};
use crate::hash::ct_eq;
use crate::ristretto::{
    all_points, all_scalars, basepoint, decompress, dot, encodes_point, identity, logs, order,
    point_log, point_minus, point_plus, point_times, same_point, scalar_from_u64, scalar_plus,
    values, Point, Scalar,
};
use crate::rng::{
    law_draws_move_on, law_stream_starts_over, lemma_advanced_twice, period, stream, stream_byte,
    stream_point, stream_scalar, stream_word, SeededRng,
};
use crate::upke::{all_encoded, compute_h, log_at, log_of, logs_at, u_enc_delta_each};
use vstd::arithmetic::div_mod::{
    lemma_add_mod_noop, lemma_mod_twice, lemma_mul_mod_noop_left, lemma_small_mod,
    lemma_sub_mod_noop,
};
use vstd::prelude::*;

verus! {

/// Number of generators of a key.
pub const UPKE_L: usize = 32;

/// Errors of the encryption scheme.
#[derive(Clone, Copy, Debug, PartialEq, Eq, Structural)]
pub enum UpkeError {
    InvalidPoint,
    InvalidLength,
    InvalidUpdateToken,
}

/// A secret key.
#[derive(Clone, Debug, PartialEq, Eq)]
pub struct UpkeSecretKey {
    pub s: [Scalar; 32],
}

/// A public key: the encodings of the generators, and of the combination of them by the
/// secret key.
#[derive(Clone, Debug, PartialEq, Eq)]
pub struct UpkePublicKey {
    pub g: Vec<u8>,
    pub h: Vec<u8>,
}

/// A ciphertext: the encodings of the multiples of the generators, and of the masked
/// element.
#[derive(Clone, Debug, PartialEq, Eq)]
pub struct UpkeCiphertext {
    pub f: Vec<u8>,
    pub c: Vec<u8>,
}

/// An update token: one ciphertext for each scalar of the secret key.
#[derive(Clone, Debug, PartialEq, Eq)]
pub struct UpkeUpdateToken {
    pub ciphertexts: Vec<UpkeCiphertext>,
}

/// The update of the key of a leaf.
#[derive(Clone, Debug, PartialEq, Eq)]
pub struct UpkeUpdate {
    pub target_leaf: u32,
    pub key_id: u64,
    pub new_public_key: UpkePublicKey,
    pub update_token: UpkeUpdateToken,
}

/// The extension that carries updates.
#[derive(Clone, Debug, PartialEq, Eq)]
pub struct UpkeUpdatesExt {
    pub updates: Vec<UpkeUpdate>,
}

/// The type of the extension that carries updates.
pub const UPKE_UPDATES_EXTENSION: u16 = 0xF100;

impl UpkeUpdatesExt {
    /// The type of the extension.
    pub fn extension_type() -> (res: u16)
        ensures
            res == 0xF100,
    {
        UPKE_UPDATES_EXTENSION
    }
}

impl UpkeSecretKey {
    /// The scalars are reduced.
    pub open spec fn wf(self) -> bool {
        all_scalars(self.s@)
    }

    /// The scalars of the key.
    pub fn as_scalars(&self) -> (res: &[Scalar; 32])
        ensures
            *res == self.s,
    {
        &self.s
    }
}

/// Why the lengths and the encodings make no public key, if they do not.
pub open spec fn public_key_error(pk: UpkePublicKey) -> Option<UpkeError> {
    if pk.g@.len() != 32 * 32 || pk.h@.len() != 32 {
        Some(UpkeError::InvalidLength)
    } else if !all_encoded(pk.g@, 32) || point_log(pk.h@) is None {
        Some(UpkeError::InvalidPoint)
    } else {
        None
    }
}

/// The logarithms of the generators.
pub open spec fn generators(pk: UpkePublicKey) -> Seq<int> {
    logs_at(pk.g@, 32)
}

/// Whether the secret key and the public key belong together.
pub open spec fn is_key_pair(sk: UpkeSecretKey, pk: UpkePublicKey) -> bool {
    &&& public_key_error(pk) is None
    &&& log_of(pk.h@) == dot(generators(pk), values(sk.s@)) % order()
}

/// Whether `ct` encrypts the element with logarithm `m` to `pk` with randomness `r`.
pub open spec fn is_encryption(ct: UpkeCiphertext, pk: UpkePublicKey, r: int, m: int) -> bool {
    &&& ct.f@.len() == 32 * 32
    &&& forall|i: int|
        0 <= i < 32 ==> encodes_point(
            #[trigger] block(ct.f@, i),
            (log_at(pk.g@, i) * r) % order(),
        )
    &&& encodes_point(ct.c@, (log_of(pk.h@) * r + m) % order())
}

/// Why a ciphertext cannot be decrypted, if it cannot.
pub open spec fn ciphertext_error(ct: UpkeCiphertext) -> Option<UpkeError> {
    if ct.f@.len() != 32 * 32 || ct.c@.len() != 32 {
        Some(UpkeError::InvalidLength)
    } else if !all_encoded(ct.f@, 32) || point_log(ct.c@) is None {
        Some(UpkeError::InvalidPoint)
    } else {
        None
    }
}

/// The logarithm of the element that `ct` holds for `sk`.
pub open spec fn decrypted(sk: UpkeSecretKey, ct: UpkeCiphertext) -> int {
    (log_of(ct.c@) - dot(logs_at(ct.f@, 32), values(sk.s@))) % order()
}

/// One more product at the end of a sum.
proof fn lemma_dot_next(a: Seq<int>, b: Seq<int>, i: int)
    requires
        0 <= i < a.len(),
        i < b.len(),
    ensures
        dot(a.take(i + 1), b.take(i + 1)) == dot(a.take(i), b.take(i)) + a[i] * b[i],
{
    assert(a.take(i + 1).drop_last() =~= a.take(i));
    assert(b.take(i + 1).drop_last() =~= b.take(i));
}

/// The encodings of the points, one behind the other.
fn encode_points(g: &[Point; 32]) -> (res: Vec<u8>)
    ensures
        res@.len() == 32 * 32,
        forall|i: int| 0 <= i < 32 ==> #[trigger] block(res@, i) == g@[i].bytes@,
{
    let mut out: Vec<u8> = Vec::new();
    let mut i: usize = 0;
    while i < 32
        invariant
            0 <= i <= 32,
            out@.len() == 32 * i,
            forall|j: int| 0 <= j < i ==> #[trigger] block(out@, j) == g@[j].bytes@,
        decreases 32 - i,
    {
        let ghost before = out@;
        append(&mut out, g[i].bytes.as_slice());
        assert forall|j: int| 0 <= j < i + 1 implies #[trigger] block(out@, j) == g@[j].bytes@ by {
            if j < i {
                assert(block(out@, j) =~= block(before, j));
            } else {
                assert(block(out@, j) =~= g@[j].bytes@);
            }
        }
        i += 1;
    }
    out
}

impl UpkePublicKey {
    /// The generators, and the combination of them by the secret key.
    pub fn parse(&self) -> (res: Result<([Point; 32], Point), UpkeError>)
        ensures
            match public_key_error(*self) {
                Some(e) => res == Err::<([Point; 32], Point), _>(e),
                None => {
                    &&& res matches Ok((g, h))
                    &&& all_points(g@)
                    &&& logs(g@) == generators(*self)
                    &&& forall|i: int|
                        0 <= i < 32 ==> (#[trigger] g@[i]).bytes@ == block(self.g@, i)
                    &&& h.wf()
                    &&& h.bytes@ == self.h@
                    &&& h.log() == log_of(self.h@)
                },
            },
    {
        if self.g.len() != 32 * 32 || self.h.len() != 32 {
            return Err(UpkeError::InvalidLength);
        }
        let b: &[u8] = self.g.as_slice();
        let mut gs: [Point; 32] = [basepoint();32];
        let mut i: usize = 0;
        while i < 32
            invariant
                0 <= i <= 32,
                b@ == self.g@,
                b@.len() == 32 * 32,
                self.h@.len() == 32,
                forall|j: int|
                    0 <= j < i ==> (#[trigger] gs@[j]).wf() && gs@[j].bytes@ == block(b@, j),
            decreases 32 - i,
        {
            match decompress(read_block(b, i * 32)) {
                None => {
                    assert(point_log(block(b@, i as int)) is None);
                    return Err(UpkeError::InvalidPoint);
                },
                Some(p) => {
                    gs[i] = p;
                },
            }
            i += 1;
        }
        assert(self.h@.subrange(0, 32) =~= self.h@);
        match decompress(read_block(self.h.as_slice(), 0)) {
            None => Err(UpkeError::InvalidPoint),
            Some(h) => {
                proof {
                    assert forall|j: int| 0 <= j < 32 implies (#[trigger] point_log(
                        block(self.g@, j),
                    )) is Some by {
                        assert(gs@[j].wf() && gs@[j].bytes@ == block(b@, j));
                    }
                    assert(logs(gs@) =~= generators(*self));
                }
                Ok((gs, h))
            },
        }
    }
}

/// The key pair of the given scalars and generators.
pub fn assemble_key_pair(s: [Scalar; 32], g: &[Point; 32]) -> (res: (UpkeSecretKey, UpkePublicKey))
    requires
        all_scalars(s@),
        all_points(g@),
    ensures
        res.0.s == s,
        generators(res.1) == logs(g@),
        forall|i: int| 0 <= i < 32 ==> #[trigger] block(res.1.g@, i) == g@[i].bytes@,
        encodes_point(res.1.h@, dot(logs(g@), values(s@)) % order()),
        is_key_pair(res.0, res.1),
{
    let h: Point = compute_h(g.as_slice(), s.as_slice());
    let pk: UpkePublicKey = UpkePublicKey {
        g: encode_points(g),
        h: copy_bytes(h.bytes.as_slice()),
    };
    proof {
        assert forall|i: int| 0 <= i < 32 implies (#[trigger] point_log(block(pk.g@, i)))
            is Some by {
            assert(g@[i].wf());
        }
        assert(generators(pk) =~= logs(g@)) by {
            assert forall|i: int| 0 <= i < 32 implies generators(pk)[i] == logs(g@)[i] by {
                assert(block(pk.g@, i) == g@[i].bytes@);
            }
        }
    }
    (UpkeSecretKey { s }, pk)
}

/// Draws a key pair: for each position a bit and a generator.
pub fn upke_keygen(rng: &mut SeededRng) -> (res: (UpkeSecretKey, UpkePublicKey))
    requires
        old(rng).wf(),
    ensures
        res.0.wf(),
        forall|i: int|
            0 <= i < 32 ==> (#[trigger] res.0.s@[i]).value() == stream_word(
                old(rng).seed@,
                old(rng).pos_after(17 * i),
            ) % 2,
        forall|i: int|
            0 <= i < 32 ==> #[trigger] generators(res.1)[i] == stream_point(
                old(rng).seed@,
                old(rng).pos_after(17 * i + 1),
            ),
        is_key_pair(res.0, res.1),
        *final(rng) == old(rng).advanced(544),
        final(rng).wf(),
{
    let mut s: [Scalar; 32] = [scalar_from_u64(0);32];
    let mut gs: [Point; 32] = [basepoint();32];
    let mut i: usize = 0;
    assert(old(rng).pos_after(0) == old(rng).word_pos) by {
        lemma_small_mod(old(rng).word_pos as nat, period() as nat);
    }
    while i < 32
        invariant
            0 <= i <= 32,
            rng.wf(),
            *rng == old(rng).advanced(17 * i),
            forall|j: int|
                0 <= j < i ==> (#[trigger] s@[j]).wf() && s@[j].value() == stream_word(
                    old(rng).seed@,
                    old(rng).pos_after(17 * j),
                ) % 2,
            forall|j: int|
                0 <= j < i ==> (#[trigger] gs@[j]).wf() && gs@[j].log() == stream_point(
                    old(rng).seed@,
                    old(rng).pos_after(17 * j + 1),
                ),
        decreases 32 - i,
    {
        proof {
            lemma_advanced_twice(*old(rng), 17 * i, 1);
            lemma_advanced_twice(*old(rng), 17 * i + 1, 16);
        }
        let word: u32 = rng.next_u32();
        assert(word & 1 == word % 2) by (bit_vector);
        s[i] = scalar_from_u64((word & 1) as u64);
        gs[i] = rng.random_point();
        i += 1;
    }
    assert(all_scalars(s@));
    assert(all_points(gs@));
    let (sk, pk) = assemble_key_pair(s, &gs);
    assert forall|i: int| 0 <= i < 32 implies #[trigger] generators(pk)[i] == stream_point(
        old(rng).seed@,
        old(rng).pos_after(17 * i + 1),
    ) by {
        assert(logs(gs@)[i] == gs@[i].log());
    }
    (sk, pk)
}

/// Encrypts `m` to `pk` with the given randomness.
pub fn upke_enc_with(r: &Scalar, pk: &UpkePublicKey, m: &Point) -> (res: Result<
    UpkeCiphertext,
    UpkeError,
>)
    requires
        r.wf(),
        m.wf(),
    ensures
        match public_key_error(*pk) {
            Some(e) => res == Err::<UpkeCiphertext, _>(e),
            None => res is Ok && is_encryption(res->Ok_0, *pk, r.value(), m.log()),
        },
{
    let (gs, h) = match pk.parse() {
        Ok(parsed) => parsed,
        Err(e) => {
            return Err(e);
        },
    };
    let mut fs: [Point; 32] = [identity();32];
    let mut i: usize = 0;
    while i < 32
        invariant
            0 <= i <= 32,
            r.wf(),
            all_points(gs@),
            logs(gs@) == generators(*pk),
            forall|j: int|
                0 <= j < i ==> (#[trigger] fs@[j]).wf() && fs@[j].log() == (log_at(pk.g@, j)
                    * r.value()) % order(),
        decreases 32 - i,
    {
        assert(gs@[i as int].wf());
        assert(logs(gs@)[i as int] == generators(*pk)[i as int]);
        fs[i] = point_times(&gs[i], r);
        i += 1;
    }
    let masked: Point = point_plus(&point_times(&h, r), m);
    proof {
        lemma_add_mod_noop(h.log() * r.value(), m.log(), order());
        lemma_small_mod(m.log() as nat, order() as nat);
    }
    let ct: UpkeCiphertext = UpkeCiphertext {
        f: encode_points(&fs),
        c: copy_bytes(masked.bytes.as_slice()),
    };
    assert forall|j: int| 0 <= j < 32 implies encodes_point(
        #[trigger] block(ct.f@, j),
        (log_at(pk.g@, j) * r.value()) % order(),
    ) by {
        assert(fs@[j].wf());
    }
    Ok(ct)
}

/// Encrypts `m` to `pk`.
pub fn upke_enc(rng: &mut SeededRng, pk: &UpkePublicKey, m: &Point) -> (res: Result<
    UpkeCiphertext,
    UpkeError,
>)
    requires
        old(rng).wf(),
        m.wf(),
    ensures
        match public_key_error(*pk) {
            Some(e) => res == Err::<UpkeCiphertext, _>(e) && *final(rng) == *old(rng),
            None => {
                &&& res is Ok
                &&& is_encryption(
                    res->Ok_0,
                    *pk,
                    stream_scalar(old(rng).seed@, old(rng).word_pos as int),
                    m.log(),
                )
                &&& *final(rng) == old(rng).advanced(16)
            },
        },
        final(rng).wf(),
{
    match pk.parse() {
        Ok(_) => {},
        Err(e) => {
            return Err(e);
        },
    }
    let r: Scalar = rng.random_scalar();
    upke_enc_with(&r, pk, m)
}

/// Decrypts `ct` with `sk`.
pub fn upke_dec(sk: &UpkeSecretKey, ct: &UpkeCiphertext) -> (res: Result<Point, UpkeError>)
    requires
        sk.wf(),
    ensures
        match ciphertext_error(*ct) {
            Some(e) => res == Err::<Point, _>(e),
            None => res is Ok && res->Ok_0.wf() && res->Ok_0.log() == decrypted(*sk, *ct),
        },
{
    if ct.f.len() != 32 * 32 || ct.c.len() != 32 {
        return Err(UpkeError::InvalidLength);
    }
    assert(ct.c@.subrange(0, 32) =~= ct.c@);
    let c: Point = match decompress(read_block(ct.c.as_slice(), 0)) {
        Some(c) => c,
        None => {
            return Err(UpkeError::InvalidPoint);
        },
    };
    let f: &[u8] = ct.f.as_slice();
    let mut fs: [Point; 32] = [identity();32];
    let mut i: usize = 0;
    while i < 32
        invariant
            0 <= i <= 32,
            f@ == ct.f@,
            f@.len() == 32 * 32,
            ct.c@.len() == 32,
            point_log(ct.c@) is Some,
            forall|j: int|
                0 <= j < i ==> (#[trigger] fs@[j]).wf() && fs@[j].bytes@ == block(f@, j),
        decreases 32 - i,
    {
        match decompress(read_block(f, i * 32)) {
            Some(f_i) => {
                fs[i] = f_i;
            },
            None => {
                assert(point_log(block(f@, i as int)) is None);
                return Err(UpkeError::InvalidPoint);
            },
        }
        i += 1;
    }
    proof {
        assert forall|j: int| 0 <= j < 32 implies (#[trigger] point_log(block(f@, j))) is Some by {
            assert(fs@[j].wf() && fs@[j].bytes@ == block(f@, j));
        }
        assert(logs(fs@) =~= logs_at(ct.f@, 32));
        lemma_sub_mod_noop(c.log(), dot(logs(fs@), values(sk.s@)), order());
        lemma_small_mod(c.log() as nat, order() as nat);
    }
    Ok(point_minus(&c, &compute_h(fs.as_slice(), sk.s.as_slice())))
}

/// Whether the secret key and the public key belong together.
pub fn upke_validate_pair(sk: &UpkeSecretKey, pk: &UpkePublicKey) -> (res: Result<bool, UpkeError>)
    requires
        sk.wf(),
    ensures
        match public_key_error(*pk) {
            Some(e) => res == Err::<bool, _>(e),
            None => res == Ok::<_, UpkeError>(is_key_pair(*sk, *pk)),
        },
{
    match pk.parse() {
        Err(e) => Err(e),
        Ok((gs, h)) => Ok(same_point(&compute_h(gs.as_slice(), sk.s.as_slice()), &h)),
    }
}

/// The given bits as integers.
pub open spec fn bits_of(bits: Seq<bool>) -> Seq<int> {
    Seq::new(
        bits.len(),
        |i: int|
            if bits[i] {
                1
            } else {
                0
            },
    )
}

/// Whether `token` and `new_pk` are the update of `pk` by the selection `d` of generators:
/// each ciphertext of the token encrypts its entry of `d`, as a multiple of the base point,
/// with its entry of `r`; the new key has the same generators, and its last element is moved
/// by those that are selected.
pub open spec fn is_update(
    pk: UpkePublicKey,
    d: Seq<int>,
    r: Seq<int>,
    token: UpkeUpdateToken,
    new_pk: UpkePublicKey,
) -> bool {
    &&& token.ciphertexts@.len() == 32
    &&& forall|i: int|
        0 <= i < 32 ==> is_encryption(#[trigger] token.ciphertexts@[i], pk, r[i], d[i])
    &&& new_pk.g@ == pk.g@
    &&& encodes_point(new_pk.h@, (log_of(pk.h@) + dot(generators(pk), d)) % order())
}

/// Updates `pk` by the given selection of generators, with the given randomness.
pub fn upke_upd_pk_with(bits: &[bool; 32], rs: &[Scalar; 32], pk: &UpkePublicKey) -> (res: Result<
    (UpkeUpdateToken, UpkePublicKey),
    UpkeError,
>)
    requires
        all_scalars(rs@),
    ensures
        match public_key_error(*pk) {
            Some(e) => res == Err::<(UpkeUpdateToken, UpkePublicKey), _>(e),
            None => res is Ok && is_update(
                *pk,
                bits_of(bits@),
                values(rs@),
                res->Ok_0.0,
                res->Ok_0.1,
            ),
        },
{
    let (gs, h) = match pk.parse() {
        Ok(parsed) => parsed,
        Err(e) => {
            return Err(e);
        },
    };
    let ghost a = generators(*pk);
    let ghost d = bits_of(bits@);
    let mut h_prime: Point = h;
    let mut i: usize = 0;
    proof {
        assert(a.take(0) =~= Seq::empty());
        lemma_small_mod(h.log() as nat, order() as nat);
    }
    while i < 32
        invariant
            0 <= i <= 32,
            all_points(gs@),
            a == generators(*pk),
            a == logs(gs@),
            d == bits_of(bits@),
            0 <= h.log() < order(),
            h_prime.wf(),
            h_prime.log() == (h.log() + dot(a.take(i as int), d.take(i as int))) % order(),
        decreases 32 - i,
    {
        assert(gs@[i as int].wf());
        let ghost before = h.log() + dot(a.take(i as int), d.take(i as int));
        proof {
            lemma_dot_next(a, d, i as int);
            lemma_add_mod_noop(before, a[i as int], order());
            lemma_small_mod(a[i as int] as nat, order() as nat);
            assert(a[i as int] * 1 == a[i as int] && a[i as int] * 0 == 0) by (nonlinear_arith);
        }
        if bits[i] {
            h_prime = point_plus(&h_prime, &gs[i]);
        }
        i += 1;
    }
    assert(a.take(32) =~= a);
    assert(d.take(32) =~= d);
    let mut ms: [Point; 32] = [identity();32];
    let mut i: usize = 0;
    while i < 32
        invariant
            0 <= i <= 32,
            d == bits_of(bits@),
            forall|j: int| 0 <= j < 32 ==> (#[trigger] ms@[j]).wf(),
            forall|j: int| 0 <= j < i ==> (#[trigger] ms@[j]).log() == d[j],
            forall|j: int| i <= j < 32 ==> (#[trigger] ms@[j]).log() == 0,
        decreases 32 - i,
    {
        if bits[i] {
            ms[i] = basepoint();
        }
        i += 1;
    }
    let encrypted: Vec<crate::upke::UpkeCiphertext> = u_enc_delta_each(
        gs.as_slice(),
        &h,
        rs.as_slice(),
        ms.as_slice(),
    );
    let mut ciphertexts: Vec<UpkeCiphertext> = Vec::new();
    let mut i: usize = 0;
    while i < 32
        invariant
            0 <= i <= 32,
            encrypted@.len() == 32,
            ciphertexts@.len() == i,
            forall|j: int|
                0 <= j < i ==> (#[trigger] ciphertexts@[j]).f@ == encrypted@[j].kem_output@
                    && ciphertexts@[j].c@ == encrypted@[j].ciphertext@,
        decreases 32 - i,
    {
        ciphertexts.push(
            UpkeCiphertext {
                f: copy_bytes(encrypted[i].kem_output.as_slice()),
                c: copy_bytes(encrypted[i].ciphertext.as_slice()),
            },
        );
        i += 1;
    }
    assert forall|j: int| 0 <= j < 32 implies is_encryption(
        #[trigger] ciphertexts@[j],
        *pk,
        values(rs@)[j],
        d[j],
    ) by {
        assert(crate::upke::is_encryption(
            encrypted@[j],
            logs(gs@),
            h.log(),
            rs@[j].value(),
            ms@[j].log(),
        ));
        assert forall|k: int| 0 <= k < 32 implies encodes_point(
            #[trigger] block(ciphertexts@[j].f@, k),
            (log_at(pk.g@, k) * rs@[j].value()) % order(),
        ) by {
            assert(logs(gs@)[k] == generators(*pk)[k]);
            assert(encodes_point(
                block(encrypted@[j].kem_output@, k),
                (logs(gs@)[k] * rs@[j].value()) % order(),
            ));
        }
    }
    Ok(
        (
            UpkeUpdateToken { ciphertexts },
            UpkePublicKey {
                g: copy_bytes(pk.g.as_slice()),
                h: copy_bytes(h_prime.bytes.as_slice()),
            },
        ),
    )
}

/// Whether the drawn word at place `i` selects the generator at `i`.
pub open spec fn drawn_bit(rng: SeededRng, i: int) -> int {
    stream_word(rng.seed@, rng.pos_after(i)) % 2
}

/// The randomness that is drawn for the ciphertext at place `i` of a token.
pub open spec fn drawn_scalar(rng: SeededRng, i: int) -> int {
    stream_scalar(rng.seed@, rng.pos_after(32 + 16 * i))
}

/// Updates `pk` by a random selection of generators.
pub fn upke_upd_pk(rng: &mut SeededRng, pk: &UpkePublicKey) -> (res: Result<
    (UpkeUpdateToken, UpkePublicKey),
    UpkeError,
>)
    requires
        old(rng).wf(),
    ensures
        match public_key_error(*pk) {
            Some(e) => res == Err::<(UpkeUpdateToken, UpkePublicKey), _>(e) && *final(rng) == *old(
                rng,
            ),
            None => {
                &&& res is Ok
                &&& is_update(
                    *pk,
                    Seq::new(32, |i: int| drawn_bit(*old(rng), i)),
                    Seq::new(32, |i: int| drawn_scalar(*old(rng), i)),
                    res->Ok_0.0,
                    res->Ok_0.1,
                )
                &&& *final(rng) == old(rng).advanced(544)
            },
        },
        final(rng).wf(),
{
    match pk.parse() {
        Ok(_) => {},
        Err(e) => {
            return Err(e);
        },
    }
    let mut bits: [bool; 32] = [false;32];
    let mut i: usize = 0;
    assert(old(rng).pos_after(0) == old(rng).word_pos) by {
        lemma_small_mod(old(rng).word_pos as nat, period() as nat);
    }
    while i < 32
        invariant
            0 <= i <= 32,
            rng.wf(),
            *rng == old(rng).advanced(i as int),
            forall|j: int|
                0 <= j < i ==> #[trigger] bits@[j] == (drawn_bit(*old(rng), j) == 1),
        decreases 32 - i,
    {
        proof {
            lemma_advanced_twice(*old(rng), i as int, 1);
        }
        let word: u32 = rng.next_u32();
        assert(word & 1 == word % 2) by (bit_vector);
        bits[i] = word & 1 == 1;
        i += 1;
    }
    let mut rs: [Scalar; 32] = [scalar_from_u64(0);32];
    let mut i: usize = 0;
    while i < 32
        invariant
            0 <= i <= 32,
            rng.wf(),
            *rng == old(rng).advanced(32 + 16 * i),
            forall|j: int|
                0 <= j < i ==> (#[trigger] rs@[j]).wf() && rs@[j].value() == drawn_scalar(
                    *old(rng),
                    j,
                ),
        decreases 32 - i,
    {
        proof {
            lemma_advanced_twice(*old(rng), 32 + 16 * i, 16);
        }
        rs[i] = rng.random_scalar();
        i += 1;
    }
    assert(all_scalars(rs@));
    assert(bits_of(bits@) =~= Seq::new(32, |i: int| drawn_bit(*old(rng), i)));
    assert(values(rs@) =~= Seq::new(32, |i: int| drawn_scalar(*old(rng), i)));
    upke_upd_pk_with(&bits, &rs, pk)
}

/// Why a ciphertext of a token does not say how its scalar moves, if it does not.
pub open spec fn token_error(sk: UpkeSecretKey, ct: UpkeCiphertext) -> Option<UpkeError> {
    if ciphertext_error(ct) is Some {
        ciphertext_error(ct)
    } else if decrypted(sk, ct) != 0 && decrypted(sk, ct) != 1 {
        Some(UpkeError::InvalidUpdateToken)
    } else {
        None
    }
}

/// Whether each scalar of `new_sk` is that of `sk`, moved by what its ciphertext holds.
pub open spec fn is_updated_secret(
    sk: UpkeSecretKey,
    token: UpkeUpdateToken,
    new_sk: UpkeSecretKey,
) -> bool {
    forall|i: int|
        0 <= i < 32 ==> (#[trigger] new_sk.s@[i]).value() == (sk.s@[i].value() + decrypted(
            sk,
            token.ciphertexts@[i],
        )) % order()
}

/// Whether the first `n` ciphertexts of the token say how their scalars move.
pub open spec fn token_ok(sk: UpkeSecretKey, token: UpkeUpdateToken, n: int) -> bool {
    forall|i: int| 0 <= i < n ==> token_error(sk, #[trigger] token.ciphertexts@[i]) is None
}

/// Updates `sk` by a token. The first ciphertext that says nothing decides on the error.
pub fn upke_upd_sk(sk: &UpkeSecretKey, up: &UpkeUpdateToken) -> (res: Result<
    UpkeSecretKey,
    UpkeError,
>)
    requires
        sk.wf(),
    ensures
        match res {
            Ok(new_sk) => {
                &&& up.ciphertexts@.len() == 32
                &&& token_ok(*sk, *up, 32)
                &&& new_sk.wf()
                &&& is_updated_secret(*sk, *up, new_sk)
            },
            Err(e) => if up.ciphertexts@.len() != 32 {
                e == UpkeError::InvalidLength
            } else {
                exists|i: int|
                    {
                        &&& 0 <= i < 32
                        &&& token_ok(*sk, *up, i)
                        &&& token_error(*sk, #[trigger] up.ciphertexts@[i]) == Some(e)
                    }
            },
        },
{
    if up.ciphertexts.len() != 32 {
        return Err(UpkeError::InvalidLength);
    }
    let id: Point = identity();
    let bp: Point = basepoint();
    let one: Scalar = scalar_from_u64(1);
    let mut s_prime: [Scalar; 32] = sk.s;
    let mut i: usize = 0;
    while i < 32
        invariant
            0 <= i <= 32,
            sk.wf(),
            up.ciphertexts@.len() == 32,
            id.wf(),
            id.log() == 0,
            bp.wf(),
            bp.log() == 1,
            one.wf(),
            one.value() == 1,
            all_scalars(s_prime@),
            forall|j: int| i <= j < 32 ==> #[trigger] s_prime@[j] == sk.s@[j],
            token_ok(*sk, *up, i as int),
            forall|j: int|
                0 <= j < i ==> (#[trigger] s_prime@[j]).value() == (sk.s@[j].value() + decrypted(
                    *sk,
                    up.ciphertexts@[j],
                )) % order(),
        decreases 32 - i,
    {
        let u_i: Point = match upke_dec(sk, &up.ciphertexts[i]) {
            Ok(u_i) => u_i,
            Err(e) => {
                assert(token_error(*sk, up.ciphertexts@[i as int]) == Some(e));
                return Err(e);
            },
        };
        let is_id: u8 = ct_eq(u_i.bytes.as_slice(), id.bytes.as_slice());
        let is_bp: u8 = ct_eq(u_i.bytes.as_slice(), bp.bytes.as_slice());
        assert(s_prime@[i as int] == sk.s@[i as int]);
        assert(s_prime@[i as int].wf());
        if is_id == 1 && is_bp == 0 {
            assert(u_i.log() == 0);
            proof {
                lemma_small_mod(s_prime@[i as int].value() as nat, order() as nat);
            }
        } else if is_id == 0 && is_bp == 1 {
            assert(u_i.log() == 1);
            let moved: Scalar = scalar_plus(&s_prime[i], &one);
            s_prime[i] = moved;
        } else {
            assert(token_error(*sk, up.ciphertexts@[i as int]) == Some(
                UpkeError::InvalidUpdateToken,
            ));
            return Err(UpkeError::InvalidUpdateToken);
        }
        i += 1;
    }
    Ok(UpkeSecretKey { s: s_prime })
}

/// Decrypting what was encrypted to the public key of a key pair gives the element back.
pub proof fn law_decrypt_encrypted(
    sk: UpkeSecretKey,
    pk: UpkePublicKey,
    r: int,
    m: int,
    ct: UpkeCiphertext,
)
    requires
        is_key_pair(sk, pk),
        0 <= m < order(),
        is_encryption(ct, pk, r, m),
    ensures
        ciphertext_error(ct) is None,
        decrypted(sk, ct) == m,
{
    let g = generators(pk);
    let f = logs_at(ct.f@, 32);
    let x = values(sk.s@);
    assert forall|i: int| 0 <= i < 32 implies (#[trigger] point_log(block(ct.f@, i))) is Some by {
        assert(encodes_point(block(ct.f@, i), (log_at(pk.g@, i) * r) % order()));
    }
    assert forall|i: int| 0 <= i < 32 implies #[trigger] f[i] == (g[i] * r) % order() by {
        assert(encodes_point(block(ct.f@, i), (log_at(pk.g@, i) * r) % order()));
    }
    lemma_dot_scaled(g, x, r, f);
    lemma_mul_mod_noop_left(dot(g, x), r, order());
    lemma_unmask(log_of(pk.h@), r, m, dot(f, x));
}

/// The holder of the secret key accepts the token of every update of its public key, reads
/// from it which generators were selected, and ends with the secret key of the new public
/// key.
pub proof fn law_update_keeps_key_pair(
    sk: UpkeSecretKey,
    pk: UpkePublicKey,
    d: Seq<int>,
    r: Seq<int>,
    token: UpkeUpdateToken,
    new_pk: UpkePublicKey,
)
    requires
        is_key_pair(sk, pk),
        d.len() == 32,
        forall|i: int| 0 <= i < 32 ==> #[trigger] d[i] == 0 || d[i] == 1,
        is_update(pk, d, r, token, new_pk),
    ensures
        token_ok(sk, token, 32),
        forall|i: int| 0 <= i < 32 ==> decrypted(sk, #[trigger] token.ciphertexts@[i]) == d[i],
        generators(new_pk) == generators(pk),
        forall|new_sk: UpkeSecretKey| #[trigger]
            is_updated_secret(sk, token, new_sk) ==> is_key_pair(new_sk, new_pk),
{
    let g = generators(pk);
    let h = log_of(pk.h@);
    assert forall|i: int| 0 <= i < 32 implies decrypted(sk, #[trigger] token.ciphertexts@[i])
        == d[i] && token_error(sk, token.ciphertexts@[i]) is None by {
        assert(d[i] == 0 || d[i] == 1);
        law_decrypt_encrypted(sk, pk, r[i], d[i], token.ciphertexts@[i]);
    }
    assert(public_key_error(new_pk) is None);
    assert forall|new_sk: UpkeSecretKey| #[trigger]
        is_updated_secret(sk, token, new_sk) implies is_key_pair(new_sk, new_pk) by {
        let x = values(sk.s@);
        let y = values(new_sk.s@);
        assert forall|i: int| 0 <= i < 32 implies #[trigger] y[i] == (x[i] + d[i]) % order() by {
            assert(new_sk.s@[i].value() == (sk.s@[i].value() + decrypted(
                sk,
                token.ciphertexts@[i],
            )) % order());
        }
        lemma_dot_shifted(g, x, d, y);
        lemma_add_mod_noop(dot(g, x), dot(g, d), order());
        lemma_add_mod_noop(h, dot(g, d), order());
        lemma_mod_twice(dot(g, x), order());
    }
}

/// A public key parses exactly if its parts have their lengths, and every 32 bytes of them encode
/// a group element; a ciphertext likewise. Lengths are looked at first.
pub proof fn law_keys_and_ciphertexts_are_encoded_elements(pk: UpkePublicKey, ct: UpkeCiphertext)
    ensures
        public_key_error(pk) == (if pk.g@.len() != 1024 || pk.h@.len() != 32 {
            Some(UpkeError::InvalidLength)
        } else if point_log(pk.h@) is Some && forall|i: int|
            0 <= i < 32 ==> point_log(#[trigger] pk.g@.subrange(32 * i, 32 * i + 32)) is Some {
            None
        } else {
            Some(UpkeError::InvalidPoint)
        }),
        ciphertext_error(ct) == (if ct.f@.len() != 1024 || ct.c@.len() != 32 {
            Some(UpkeError::InvalidLength)
        } else if point_log(ct.c@) is Some && forall|i: int|
            0 <= i < 32 ==> point_log(#[trigger] ct.f@.subrange(32 * i, 32 * i + 32)) is Some {
            None
        } else {
            Some(UpkeError::InvalidPoint)
        }),
{
    lemma_encoded_blocks(pk.g@);
    lemma_encoded_blocks(ct.f@);
}

/// Blocks that encode elements, by their bytes.
proof fn lemma_encoded_blocks(b: Seq<u8>)
    ensures
        all_encoded(b, 32) <==> forall|i: int|
            0 <= i < 32 ==> point_log(#[trigger] b.subrange(32 * i, 32 * i + 32)) is Some,
{
    if all_encoded(b, 32) {
        assert forall|i: int| 0 <= i < 32 implies point_log(
            #[trigger] b.subrange(32 * i, 32 * i + 32),
        ) is Some by {
            assert(point_log(block(b, i)) is Some);
        }
    }
    if forall|i: int|
        0 <= i < 32 ==> point_log(#[trigger] b.subrange(32 * i, 32 * i + 32)) is Some {
        assert forall|i: int| 0 <= i < 32 implies (#[trigger] point_log(block(b, i))) is Some by {
            assert(point_log(b.subrange(32 * i, 32 * i + 32)) is Some);
        }
    }
}

/// The generators of a public key, by its bytes.
proof fn lemma_generators(pk: UpkePublicKey)
    requires
        public_key_error(pk) is None,
    ensures
        generators(pk) == Seq::new(
            32,
            |i: int| point_log(pk.g@.subrange(32 * i, 32 * i + 32))->0,
        ),
        log_of(pk.h@) == point_log(pk.h@)->0,
{
    let g = Seq::new(32, |i: int| point_log(pk.g@.subrange(32 * i, 32 * i + 32))->0);
    assert forall|i: int| 0 <= i < 32 implies generators(pk)[i] == g[i] by {
        assert(point_log(block(pk.g@, i)) is Some);
    }
    assert(generators(pk) =~= g);
}

/// A secret and a public key belong together exactly if the last element of the public key is
/// the sum of each generator times the scalar at its place.
pub proof fn law_key_pairs_combine_the_generators(sk: UpkeSecretKey, pk: UpkePublicKey)
    requires
        public_key_error(pk) is None,
    ensures
        is_key_pair(sk, pk) <==> point_log(pk.h@)->0 == dot(
            Seq::new(32, |i: int| point_log(pk.g@.subrange(32 * i, 32 * i + 32))->0),
            Seq::new(32, |i: int| le_value(sk.s@[i].bytes@)),
        ) % order(),
{
    lemma_generators(pk);
    assert(values(sk.s@) =~= Seq::new(32, |i: int| le_value(sk.s@[i].bytes@)));
}

/// What an encryption is: the first part holds each generator times `r`, and the second the last
/// element of the key times `r`, plus the message.
pub proof fn law_encryption_masks_the_message(
    ct: UpkeCiphertext,
    pk: UpkePublicKey,
    r: int,
    m: int,
    j: int,
)
    requires
        public_key_error(pk) is None,
        is_encryption(ct, pk, r, m),
        0 <= j < 32,
    ensures
        ct.f@.len() == 1024,
        ct.c@.len() == 32,
        point_log(ct.f@.subrange(32 * j, 32 * j + 32)) == Some(
            (point_log(pk.g@.subrange(32 * j, 32 * j + 32))->0 * r) % order(),
        ),
        point_log(ct.c@) == Some((point_log(pk.h@)->0 * r + m) % order()),
{
    assert(point_log(block(pk.g@, j)) is Some);
    assert(encodes_point(block(ct.f@, j), (log_at(pk.g@, j) * r) % order()));
}

/// What a ciphertext decrypts to: its second part less the sum of each element of the first
/// times the scalar at its place.
pub proof fn law_decryption_takes_off_the_mask(sk: UpkeSecretKey, ct: UpkeCiphertext)
    requires
        ciphertext_error(ct) is None,
    ensures
        decrypted(sk, ct) == (point_log(ct.c@)->0 - dot(
            Seq::new(32, |i: int| point_log(ct.f@.subrange(32 * i, 32 * i + 32))->0),
            Seq::new(32, |i: int| le_value(sk.s@[i].bytes@)),
        )) % order(),
{
    let f = Seq::new(32, |i: int| point_log(ct.f@.subrange(32 * i, 32 * i + 32))->0);
    assert forall|i: int| 0 <= i < 32 implies logs_at(ct.f@, 32)[i] == f[i] by {
        assert(point_log(block(ct.f@, i)) is Some);
    }
    assert(logs_at(ct.f@, 32) =~= f);
    assert(values(sk.s@) =~= Seq::new(32, |i: int| le_value(sk.s@[i].bytes@)));
}

/// An update moves the public key by exactly the generators that are selected: the new key has
/// the old generators, byte for byte, and its last element is the old one plus the sum of each
/// generator times its entry in the selection. The token carries the selection, masked.
pub proof fn law_update_adds_the_selected_generators(
    pk: UpkePublicKey,
    bits: Seq<bool>,
    r: Seq<int>,
    token: UpkeUpdateToken,
    new_pk: UpkePublicKey,
    i: int,
)
    requires
        public_key_error(pk) is None,
        bits.len() == 32,
        is_update(pk, bits_of(bits), r, token, new_pk),
        0 <= i < 32,
    ensures
        new_pk.g@ == pk.g@,
        point_log(new_pk.h@) == Some(
            (point_log(pk.h@)->0 + dot(
                Seq::new(32, |k: int| point_log(pk.g@.subrange(32 * k, 32 * k + 32))->0),
                Seq::new(
                    32,
                    |k: int|
                        if bits[k] {
                            1int
                        } else {
                            0int
                        },
                ),
            )) % order(),
        ),
        token.ciphertexts@.len() == 32,
        is_encryption(
            token.ciphertexts@[i],
            pk,
            r[i],
            if bits[i] {
                1
            } else {
                0
            },
        ),
{
    lemma_generators(pk);
    let d = Seq::new(
        32,
        |k: int|
            if bits[k] {
                1int
            } else {
                0int
            },
    );
    assert(bits_of(bits) =~= d);
    assert(is_encryption(token.ciphertexts@[i], pk, r[i], d[i]));
}

/// Two updates of one key of which the second selects the generator at `j` in addition lead to
/// keys whose last elements differ by that generator. An update that selects none leaves the key
/// as it is.
pub proof fn law_one_more_selection_adds_its_generator(
    pk: UpkePublicKey,
    d: Seq<int>,
    r: Seq<int>,
    token: UpkeUpdateToken,
    new_pk: UpkePublicKey,
    other_r: Seq<int>,
    other_token: UpkeUpdateToken,
    other_pk: UpkePublicKey,
    j: int,
)
    requires
        public_key_error(pk) is None,
        d.len() == 32,
        0 <= j < 32,
        is_update(pk, d, r, token, new_pk),
        is_update(pk, d.update(j, d[j] + 1), other_r, other_token, other_pk),
    ensures
        point_log(other_pk.h@) == Some(
            (point_log(new_pk.h@)->0 + point_log(pk.g@.subrange(32 * j, 32 * j + 32))->0)
                % order(),
        ),
        (forall|i: int| 0 <= i < 32 ==> #[trigger] d[i] == 0) ==> point_log(new_pk.h@) == Some(
            point_log(pk.h@)->0 % order(),
        ),
{
    lemma_generators(pk);
    let g = generators(pk);
    let h = log_of(pk.h@);
    crate::algebra::lemma_dot_moved(g, d, j, 1);
    lemma_add_mod_noop(h + dot(g, d), g[j], order());
    lemma_add_mod_noop((h + dot(g, d)) % order(), g[j], order());
    lemma_mod_twice(h + dot(g, d), order());
    if forall|i: int| 0 <= i < 32 ==> #[trigger] d[i] == 0 {
        crate::algebra::lemma_dot_with_zeros(g, d);
    }
}

/// What is drawn for an update: the lowest bit of each of 32 words says whether the generator at
/// its place is selected, and the 64 bytes for each place behind them are its randomness.
pub proof fn law_selection_is_drawn_word_by_word(rng: SeededRng, i: int)
    requires
        rng.wf(),
        0 <= i < 32,
    ensures
        drawn_bit(rng, i) == stream_byte(
            rng.seed@,
            4 * ((rng.word_pos + i) % 0x1_0000_0000_0000_0000_0),
        ) % 2,
        drawn_scalar(rng, i) == le_value(
            stream(
                rng.seed@,
                (rng.word_pos + 32 + 16 * i) % 0x1_0000_0000_0000_0000_0,
                64,
            ),
        ) % order(),
{
    law_draws_move_on(rng, i);
    law_draws_move_on(rng, 32 + 16 * i);
    law_stream_starts_over(rng.seed@, rng.pos_after(i), 4, 0);
    law_stream_starts_over(rng.seed@, rng.pos_after(32 + 16 * i), 64, 0);
}

/// A ciphertext of a token moves its scalar exactly if it parses and decrypts to nothing or to
/// the base point. That it does not parse is said first.
pub proof fn law_tokens_carry_nothing_but_bits(
    sk: UpkeSecretKey,
    token: UpkeUpdateToken,
    n: int,
    ct: UpkeCiphertext,
)
    ensures
        token_error(sk, ct) is None <==> ciphertext_error(ct) is None && (decrypted(sk, ct) == 0
            || decrypted(sk, ct) == 1),
        ciphertext_error(ct) is Some ==> token_error(sk, ct) == ciphertext_error(ct),
        ciphertext_error(ct) is None && token_error(sk, ct) is Some ==> token_error(sk, ct) == Some(
            UpkeError::InvalidUpdateToken,
        ),
        token_ok(sk, token, n) <==> forall|i: int|
            0 <= i < n ==> ciphertext_error(#[trigger] token.ciphertexts@[i]) is None && (decrypted(
                sk,
                token.ciphertexts@[i],
            ) == 0 || decrypted(sk, token.ciphertexts@[i]) == 1),
{
    if token_ok(sk, token, n) {
        assert forall|i: int| 0 <= i < n implies ciphertext_error(
            #[trigger] token.ciphertexts@[i],
        ) is None && (decrypted(sk, token.ciphertexts@[i]) == 0 || decrypted(
            sk,
            token.ciphertexts@[i],
        ) == 1) by {
            assert(token_error(sk, token.ciphertexts@[i]) is None);
        }
    }
}

/// The token of an update adds to the scalar at each place the entry of the selection there, and
/// nothing else, and the keys belong together again.
pub proof fn law_token_adds_the_selection(
    sk: UpkeSecretKey,
    pk: UpkePublicKey,
    bits: Seq<bool>,
    r: Seq<int>,
    token: UpkeUpdateToken,
    new_pk: UpkePublicKey,
    new_sk: UpkeSecretKey,
    i: int,
)
    requires
        is_key_pair(sk, pk),
        bits.len() == 32,
        is_update(pk, bits_of(bits), r, token, new_pk),
        is_updated_secret(sk, token, new_sk),
        0 <= i < 32,
    ensures
        token_ok(sk, token, 32),
        le_value(new_sk.s@[i].bytes@) == (le_value(sk.s@[i].bytes@) + (if bits[i] {
            1int
        } else {
            0int
        })) % order(),
        is_key_pair(new_sk, new_pk),
{
    let d = bits_of(bits);
    assert forall|k: int| 0 <= k < 32 implies #[trigger] d[k] == 0 || d[k] == 1 by {}
    law_update_keeps_key_pair(sk, pk, d, r, token, new_pk);
    assert(new_sk.s@[i].value() == (sk.s@[i].value() + decrypted(sk, token.ciphertexts@[i]))
        % order());
    assert(decrypted(sk, token.ciphertexts@[i]) == d[i]);
}

/// A secret key after an update has each scalar moved by what the ciphertext of the token at its
/// place decrypts to.
pub proof fn law_updated_scalars_move_by_the_token(
    sk: UpkeSecretKey,
    token: UpkeUpdateToken,
    new_sk: UpkeSecretKey,
    i: int,
)
    requires
        is_updated_secret(sk, token, new_sk),
        0 <= i < 32,
    ensures
        le_value(new_sk.s@[i].bytes@) == (le_value(sk.s@[i].bytes@) + decrypted(
            sk,
            token.ciphertexts@[i],
        )) % order(),
{
    assert(new_sk.s@[i].value() == (sk.s@[i].value() + decrypted(sk, token.ciphertexts@[i]))
        % order());
}

} // verus!
