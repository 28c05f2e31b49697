use curve25519_dalek::constants::RISTRETTO_BASEPOINT_POINT;
use curve25519_dalek::ristretto::{CompressedRistretto, RistrettoPoint};
use curve25519_dalek::scalar::Scalar as DalekScalar;
use curve25519_dalek::traits::Identity;
use qtreekem::ddh_upke::{
    upke_dec, upke_enc, upke_enc_with, upke_keygen, upke_upd_pk, upke_upd_pk_with, upke_upd_sk,
    upke_validate_pair, UpkeCiphertext, UpkeError, UpkePublicKey, UpkeUpdateToken, UpkeUpdatesExt,
    UPKE_L,
};
use qtreekem::ristretto::{Point, Scalar};
use qtreekem::rng::SeededRng;
use rand_chacha::ChaCha20Rng;
use rand_core::{OsRng, RngCore, SeedableRng};

fn fresh_rng() -> SeededRng {
    let mut seed = [0u8; 32];
    OsRng.fill_bytes(&mut seed);
    SeededRng::from_seed(seed)
}

fn point(p: &RistrettoPoint) -> Point {
    Point { bytes: p.compress().to_bytes() }
}

fn dalek(p: &Point) -> RistrettoPoint {
    CompressedRistretto(p.bytes).decompress().unwrap()
}

fn scalar(n: u64) -> Scalar {
    Scalar { bytes: DalekScalar::from(n).to_bytes() }
}

#[test]
fn upke_upd_pk_and_upd_sk_produce_valid_pair() {
    let mut rng = fresh_rng();

    let (sk, pk) = upke_keygen(&mut rng);
    assert!(upke_validate_pair(&sk, &pk).unwrap());

    let (up, pk2) = upke_upd_pk(&mut rng, &pk).unwrap();
    let sk2 = upke_upd_sk(&sk, &up).unwrap();

    assert!(upke_validate_pair(&sk2, &pk2).unwrap());
}

#[test]
fn keygen_draws_a_bit_and_a_generator_in_turn() {
    let mut rng = SeededRng::from_seed([11u8; 32]);
    let mut stream = ChaCha20Rng::from_seed([11u8; 32]);
    let (sk, pk) = upke_keygen(&mut rng);
    let (gs, h) = pk.parse().unwrap();
    let mut expected_h = RistrettoPoint::identity();
    for i in 0..UPKE_L {
        let bit = (stream.next_u32() & 1) as u64;
        assert_eq!(sk.as_scalars()[i], scalar(bit));
        let g = RistrettoPoint::random(&mut stream);
        assert_eq!(gs[i], point(&g));
        expected_h += g * DalekScalar::from(bit);
    }
    assert_eq!(dalek(&h), expected_h);
    assert_eq!(rng.word_pos, stream.get_word_pos());
}

#[test]
fn decryption_undoes_encryption() {
    let mut rng = fresh_rng();
    let (sk, pk) = upke_keygen(&mut rng);
    for k in 0..5u64 {
        let m = point(&(RISTRETTO_BASEPOINT_POINT * DalekScalar::from(1000 + k)));
        let ct = upke_enc(&mut rng, &pk, &m).unwrap();
        assert_eq!(upke_dec(&sk, &ct).unwrap(), m);
    }
}

#[test]
fn encryption_uses_the_drawn_randomness() {
    let mut rng = SeededRng::from_seed([12u8; 32]);
    let (_, pk) = upke_keygen(&mut rng);
    let m = point(&RISTRETTO_BASEPOINT_POINT);
    let mut stream = ChaCha20Rng::from_seed([12u8; 32]);
    stream.set_word_pos(rng.word_pos);
    let r = DalekScalar::random(&mut stream);
    let ct = upke_enc(&mut rng, &pk, &m).unwrap();
    assert_eq!(ct, upke_enc_with(&Scalar { bytes: r.to_bytes() }, &pk, &m).unwrap());
    let (gs, h) = pk.parse().unwrap();
    for i in 0..UPKE_L {
        assert_eq!(ct.f[32 * i..32 * i + 32], (dalek(&gs[i]) * r).compress().to_bytes());
    }
    assert_eq!(ct.c, (dalek(&h) * r + RISTRETTO_BASEPOINT_POINT).compress().to_bytes());
}

#[test]
fn update_draws_the_bits_first() {
    let mut rng = SeededRng::from_seed([13u8; 32]);
    let (sk, pk) = upke_keygen(&mut rng);
    let mut stream = ChaCha20Rng::from_seed([13u8; 32]);
    stream.set_word_pos(rng.word_pos);
    let mut bits = [false; 32];
    for bit in bits.iter_mut() {
        *bit = stream.next_u32() & 1 == 1;
    }
    let mut rs = [scalar(0); 32];
    for r in rs.iter_mut() {
        *r = Scalar { bytes: DalekScalar::random(&mut stream).to_bytes() };
    }
    let (token, new_pk) = upke_upd_pk(&mut rng, &pk).unwrap();
    assert_eq!(rng.word_pos, stream.get_word_pos());
    assert_eq!((token.clone(), new_pk), upke_upd_pk_with(&bits, &rs, &pk).unwrap());
    let new_sk = upke_upd_sk(&sk, &token).unwrap();
    for i in 0..UPKE_L {
        let old = DalekScalar::from_canonical_bytes(sk.s[i].bytes).unwrap();
        let new = DalekScalar::from_canonical_bytes(new_sk.s[i].bytes).unwrap();
        assert_eq!(new, old + DalekScalar::from(bits[i] as u64));
    }
}

#[test]
fn a_foreign_secret_key_is_not_valid() {
    let mut rng = fresh_rng();
    let (_, pk) = upke_keygen(&mut rng);
    let (mut other, _) = upke_keygen(&mut rng);
    other.s[0] = scalar(5);
    assert!(!upke_validate_pair(&other, &pk).unwrap());
}

#[test]
fn malformed_public_keys_are_refused() {
    let mut rng = SeededRng::from_seed([14u8; 32]);
    let (sk, pk) = upke_keygen(&mut rng);
    let before = rng;
    let m = point(&RISTRETTO_BASEPOINT_POINT);

    let short = UpkePublicKey { g: pk.g[32..].to_vec(), h: pk.h.clone() };
    assert_eq!(short.parse(), Err(UpkeError::InvalidLength));
    let short_h = UpkePublicKey { g: pk.g.clone(), h: pk.h[1..].to_vec() };
    assert_eq!(short_h.parse(), Err(UpkeError::InvalidLength));
    assert_eq!(upke_enc(&mut rng, &short_h, &m), Err(UpkeError::InvalidLength));

    let mut bad = pk.clone();
    bad.g[..32].copy_from_slice(&[0xff; 32]);
    assert_eq!(bad.parse(), Err(UpkeError::InvalidPoint));
    assert_eq!(upke_upd_pk(&mut rng, &bad), Err(UpkeError::InvalidPoint));
    let bad_h = UpkePublicKey { g: pk.g.clone(), h: vec![0xff; 32] };
    assert_eq!(upke_validate_pair(&sk, &bad_h), Err(UpkeError::InvalidPoint));
    assert_eq!(rng, before);
}

#[test]
fn malformed_tokens_are_refused() {
    let mut rng = fresh_rng();
    let (sk, pk) = upke_keygen(&mut rng);
    let (token, _) = upke_upd_pk(&mut rng, &pk).unwrap();

    let short = UpkeUpdateToken { ciphertexts: token.ciphertexts[1..].to_vec() };
    assert_eq!(upke_upd_sk(&sk, &short), Err(UpkeError::InvalidLength));

    let mut wrong = token.clone();
    let two = point(&(RISTRETTO_BASEPOINT_POINT * DalekScalar::from(2u64)));
    wrong.ciphertexts[4] = upke_enc(&mut rng, &pk, &two).unwrap();
    wrong.ciphertexts[9] = UpkeCiphertext { f: vec![], c: vec![] };
    assert_eq!(upke_upd_sk(&sk, &wrong), Err(UpkeError::InvalidUpdateToken));

    let mut broken = token.clone();
    broken.ciphertexts[3].c = vec![0xff; 32];
    broken.ciphertexts[5].f = vec![];
    assert_eq!(upke_upd_sk(&sk, &broken), Err(UpkeError::InvalidPoint));
    assert_eq!(upke_dec(&sk, &broken.ciphertexts[5]), Err(UpkeError::InvalidLength));
}

#[test]
fn updates_travel_in_their_extension() {
    assert_eq!(UpkeUpdatesExt::extension_type(), 0xF100);
}
