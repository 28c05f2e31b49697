//! Generation of key pairs over a fixed set of generators.

use crate::bytes::{block, le_value};
use crate::crypto::CryptoError;
use crate::hash::sha512_digest;
use crate::ristretto::{
    all_scalars, hashed_log, logs, order, point_log, values, Point, Scalar,
};
use crate::rng::{
    law_draws_move_on, law_stream_starts_over, stream, stream_scalar, SeededRng,
};
use crate::upke::{
    compute_h, derive_generators, generator_input, is_key_pair, law_generators_are_numbered,
    law_parse_serialized_public_key, law_parse_serialized_secret_key, logs_at, public_key_error,
    sample_scalars, scalars_at, serialize_public_key, serialize_secret_key, UpkePublicKey,
    UpkeSecretKey, UPKE_L,
};
use vstd::prelude::*;

verus! {

/// The domain under which the generators are derived, `mls-rs upke v1`.
pub open spec fn domain() -> Seq<u8> {
    seq![
        0x6du8, 0x6c, 0x73, 0x2d, 0x72, 0x73, 0x20, 0x75, 0x70, 0x6b, 0x65, 0x20, 0x76, 0x31,
    ]
}

/// The seed from which the generators are derived, `mls-rs upke generators v1`.
pub open spec fn seed_g() -> Seq<u8> {
    seq![
        0x6du8, 0x6c, 0x73, 0x2d, 0x72, 0x73, 0x20, 0x75, 0x70, 0x6b, 0x65, 0x20, 0x67, 0x65,
        0x6e, 0x65, 0x72, 0x61, 0x74, 0x6f, 0x72, 0x73, 0x20, 0x76, 0x31,
    ]
}

/// Whether the public key has the fixed generators.
pub open spec fn has_fixed_generators(pk: Seq<u8>) -> bool {
    forall|i: int|
        0 <= i < 32 ==> #[trigger] logs_at(pk, 32)[i] == hashed_log(
            generator_input(domain(), seed_g(), i + 1),
        )
}

/// Whether the key pair has the fixed generators, and its scalars are those that the
/// generator gives next.
pub open spec fn is_generated(rng: SeededRng, sk: Seq<u8>, pk: Seq<u8>) -> bool {
    &&& is_key_pair(sk, pk, 32)
    &&& has_fixed_generators(pk)
    &&& forall|i: int|
        0 <= i < 32 ==> #[trigger] scalars_at(sk, 32)[i] == stream_scalar(
            rng.seed@,
            rng.pos_after(16 * i),
        )
}

/// The key pair of the given scalars over the fixed generators.
pub fn assemble_keypair(x: &[Scalar]) -> (res: (UpkeSecretKey, UpkePublicKey))
    requires
        x@.len() == 32,
        all_scalars(x@),
    ensures
        is_key_pair(res.0.bytes@, res.1.bytes@, 32),
        has_fixed_generators(res.1.bytes@),
        scalars_at(res.0.bytes@, 32) == values(x@),
{
    let domain_bytes: [u8; 14] = [
        0x6du8, 0x6c, 0x73, 0x2d, 0x72, 0x73, 0x20, 0x75, 0x70, 0x6b, 0x65, 0x20, 0x76, 0x31,
    ];
    let seed_bytes: [u8; 25] = [
        0x6du8, 0x6c, 0x73, 0x2d, 0x72, 0x73, 0x20, 0x75, 0x70, 0x6b, 0x65, 0x20, 0x67, 0x65,
        0x6e, 0x65, 0x72, 0x61, 0x74, 0x6f, 0x72, 0x73, 0x20, 0x76, 0x31,
    ];
    assert(domain_bytes@ =~= domain());
    assert(seed_bytes@ =~= seed_g());
    let g: Vec<Point> = derive_generators(domain_bytes.as_slice(), seed_bytes.as_slice(), UPKE_L);
    let h: Point = compute_h(g.as_slice(), x);
    let pk: UpkePublicKey = serialize_public_key(g.as_slice(), &h);
    let sk: UpkeSecretKey = serialize_secret_key(x);
    proof {
        law_parse_serialized_public_key(g@, h);
        law_parse_serialized_secret_key(x@);
        assert forall|i: int| 0 <= i < 32 implies #[trigger] logs_at(pk.bytes@, 32)[i]
            == g@[i].log() by {
            assert(block(pk.bytes@, i) == g@[i].bytes@);
        }
        assert forall|i: int| 0 <= i < 32 implies #[trigger] scalars_at(sk.bytes@, 32)[i]
            == x@[i].value() by {
            assert(block(sk.bytes@, i) == x@[i].bytes@);
        }
        assert(logs_at(pk.bytes@, 32) =~= logs(g@));
        assert(scalars_at(sk.bytes@, 32) =~= values(x@));
    }
    (sk, pk)
}

/// Generates a key pair: draws the secret key, and derives the generators.
pub fn generate_keypair(rng: &mut SeededRng) -> (res: Result<
    (UpkeSecretKey, UpkePublicKey),
    CryptoError,
>)
    requires
        old(rng).wf(),
    ensures
        res is Ok,
        is_generated(*old(rng), res->Ok_0.0.bytes@, res->Ok_0.1.bytes@),
        *final(rng) == old(rng).advanced(512),
        final(rng).wf(),
{
    let x: Vec<Scalar> = sample_scalars(rng, UPKE_L);
    let (sk, pk) = assemble_keypair(x.as_slice());
    assert forall|i: int| 0 <= i < 32 implies #[trigger] scalars_at(sk.bytes@, 32)[i]
        == stream_scalar(old(rng).seed@, old(rng).pos_after(16 * i)) by {
        assert(values(x@)[i] == x@[i].value());
    }
    Ok((sk, pk))
}

/// Generates a key pair from a seed, if one could be drawn.
pub fn generate_keypair_from_seed(seed: Result<[u8; 32], CryptoError>) -> (res: Result<
    (UpkeSecretKey, UpkePublicKey),
    CryptoError,
>)
    ensures
        match seed {
            Ok(seed) => res is Ok && is_generated(
                SeededRng { seed, word_pos: 0 },
                res->Ok_0.0.bytes@,
                res->Ok_0.1.bytes@,
            ),
            Err(e) => res == Err::<(UpkeSecretKey, UpkePublicKey), _>(e),
        },
{
    match seed {
        Ok(seed) => {
            let mut rng: SeededRng = SeededRng::from_seed(seed);
            generate_keypair(&mut rng)
        },
        Err(e) => Err(e),
    }
}

/// Generates a key pair from a seed that `random_bytes` draws.
pub fn generate_keypair_from_provider_random<F: FnOnce() -> Result<[u8; 32], CryptoError>>(
    random_bytes: F,
) -> (res: Result<(UpkeSecretKey, UpkePublicKey), CryptoError>)
    requires
        random_bytes.requires(()),
    ensures
        exists|seed: Result<[u8; 32], CryptoError>| #[trigger]
            random_bytes.ensures((), seed) && match seed {
                Ok(seed) => res is Ok && is_generated(
                    SeededRng { seed, word_pos: 0 },
                    res->Ok_0.0.bytes@,
                    res->Ok_0.1.bytes@,
                ),
                Err(e) => res == Err::<(UpkeSecretKey, UpkePublicKey), _>(e),
            },
{
    let seed: Result<[u8; 32], CryptoError> = random_bytes();
    generate_keypair_from_seed(seed)
}

/// The generators of every generated public key are hashed from the domain `mls-rs upke v1`, the
/// seed `mls-rs upke generators v1` and their numbers, from 1 on.
pub proof fn law_generators_are_fixed(pk: Seq<u8>, i: int)
    requires
        public_key_error(pk, 32) is None,
        has_fixed_generators(pk),
        0 <= i < 32,
    ensures
        point_log(pk.subrange(32 * i, 32 * i + 32)) == Some(
            hashed_log(
                sha512_digest(
                    seq![
                        0x6du8, 0x6c, 0x73, 0x2d, 0x72, 0x73, 0x20, 0x75, 0x70, 0x6b, 0x65, 0x20,
                        0x76, 0x31,
                    ] + seq![
                        0x6du8, 0x6c, 0x73, 0x2d, 0x72, 0x73, 0x20, 0x75, 0x70, 0x6b, 0x65, 0x20,
                        0x67, 0x65, 0x6e, 0x65, 0x72, 0x61, 0x74, 0x6f, 0x72, 0x73, 0x20, 0x76,
                        0x31,
                    ] + seq![0u8, 0u8, 0u8, (i + 1) as u8],
                ),
            ),
        ),
{
    law_generators_are_numbered(domain(), seed_g(), (i + 1) as u32);
    assert(point_log(block(pk, i)) is Some);
    assert(logs_at(pk, 32)[i] == hashed_log(generator_input(domain(), seed_g(), i + 1)));
    let n = (i + 1) as u32;
    assert(seq![
        (n / 0x100_0000) as u8,
        ((n / 0x1_0000) % 256) as u8,
        ((n / 256) % 256) as u8,
        (n % 256) as u8,
    ] =~= seq![0u8, 0u8, 0u8, (i + 1) as u8]);
}

/// A generated key pair belongs together, and its scalars are what is drawn next, one after the
/// other, 64 bytes for each.
pub proof fn law_scalars_are_drawn_in_turn(rng: SeededRng, sk: Seq<u8>, pk: Seq<u8>, i: int)
    requires
        is_generated(rng, sk, pk),
        rng.wf(),
        0 <= i < 32,
    ensures
        is_key_pair(sk, pk, 32),
        has_fixed_generators(pk),
        le_value(sk.subrange(32 * i, 32 * i + 32)) == le_value(
            stream(
                rng.seed@,
                (rng.word_pos + 16 * i) % 0x1_0000_0000_0000_0000_0,
                64,
            ),
        ) % order(),
{
    law_draws_move_on(rng, 16 * i);
    law_stream_starts_over(rng.seed@, rng.pos_after(16 * i), 64, 0);
    assert(scalars_at(sk, 32)[i] == le_value(block(sk, i)));
}

} // verus!
