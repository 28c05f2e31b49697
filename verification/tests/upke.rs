use std::time::Instant;

use curve25519_dalek::constants::RISTRETTO_BASEPOINT_POINT;
use curve25519_dalek::ristretto::{CompressedRistretto, RistrettoPoint};
use curve25519_dalek::scalar::Scalar as DalekScalar;
use curve25519_dalek::traits::Identity;
use qtreekem::crypto::CryptoError;
use qtreekem::keypair::{
    generate_keypair, generate_keypair_from_provider_random, generate_keypair_from_seed,
};
use qtreekem::ristretto::{Point, Scalar};
use qtreekem::rng::SeededRng;
use qtreekem::upke::{
    compute_h, derive_delta_bits, derive_generators, parse_ciphertext, parse_public_key,
    parse_secret_key, sample_scalars, serialize_public_key, serialize_secret_key, u_enc_delta,
    u_enc_delta_each, upd_pk_from_seed, upke_dec, upke_try_upd_pk, upke_upd_pk, upke_upd_sk,
    validate_update_token, UpkeCiphertext, UpkeError, UpkePublicKey, UpkeSecretKey,
    UpkeUpdateToken, UPKE_L,
};
use rand_chacha::ChaCha20Rng;
use rand_core::{RngCore, SeedableRng};
use sha2::{Digest, Sha512};

fn point(p: &RistrettoPoint) -> Point {
    Point { bytes: p.compress().to_bytes() }
}

fn scalar(s: &DalekScalar) -> Scalar {
    Scalar { bytes: s.to_bytes() }
}

fn dalek(p: &Point) -> RistrettoPoint {
    CompressedRistretto(p.bytes).decompress().unwrap()
}

// Draws randomness and messages, one of each in turn.
fn drawn_messages(rng: &mut SeededRng, count: usize) -> (Vec<Scalar>, Vec<Point>) {
    let mut rs = Vec::new();
    let mut ms = Vec::new();
    for _ in 0..count {
        rs.push(rng.random_scalar());
        let msg_scalar = DalekScalar::from_canonical_bytes(rng.random_scalar().bytes).unwrap();
        ms.push(point(&(RISTRETTO_BASEPOINT_POINT * msg_scalar)));
    }
    (rs, ms)
}

#[test]
fn enc_dec_roundtrip_using_u_enc_delta() {
    let ell = 32;
    let mut rng = SeededRng::from_seed([42u8; 32]);

    let (sk, pk) = generate_keypair(&mut rng).expect("generate_keypair failed");
    let (g, h) = parse_public_key(&pk, ell).expect("pk parse failed");

    for _ in 0..20 {
        let r = rng.random_scalar();

        let msg_scalar = rng.random_scalar();
        let m = point(
            &(RISTRETTO_BASEPOINT_POINT
                * DalekScalar::from_canonical_bytes(msg_scalar.bytes).unwrap()),
        );

        let ct = u_enc_delta(&g, &h, &r, &m);
        let m2 = upke_dec(&sk, &ct, ell).expect("decrypt failed");

        assert_eq!(m.bytes, m2.bytes);
    }
}

#[test]
fn updpk_updsk_produce_valid_new_keypair_and_decrypts_message() {
    let mut rng = SeededRng::from_seed([42u8; 32]);

    let (sk, pk) = generate_keypair(&mut rng).expect("generate_keypair failed");

    let pk_len = pk.bytes.len();
    assert!(pk_len >= 64 && pk_len % 32 == 0, "unexpected pk length");
    let ell = (pk_len / 32) - 1;

    let (g, h) = parse_public_key(&pk, ell).expect("pk parse failed");
    assert_eq!((ell + 1) * 32, pk_len);

    let (token, pk_new) = upke_upd_pk(&mut rng, &pk, ell).expect("upke_upd_pk failed");
    let sk_new = upke_upd_sk(&sk, &token, ell).expect("upke_upd_sk failed");

    let (g_new, h_new) = parse_public_key(&pk_new, ell).expect("rotated pk parse failed");

    for i in 0..ell {
        assert_eq!(g[i].bytes, g_new[i].bytes, "generator g_{} changed after UpdPK", i);
    }

    let (rs, ms) = drawn_messages(&mut rng, 20);
    let cts = u_enc_delta_each(&g_new, &h_new, &rs, &ms);
    for (ct, m) in cts.iter().zip(&ms) {
        let m_dec = upke_dec(&sk_new, ct, ell).expect("decrypt under rotated sk failed");

        assert_eq!(m.bytes, m_dec.bytes);
    }

    let (rs, ms) = drawn_messages(&mut rng, 5);
    for (r, m) in rs.iter().zip(&ms) {
        let ct = u_enc_delta(&g, &h, r, m);
        let m_dec = upke_dec(&sk, &ct, ell).expect("decrypt under original sk failed");

        assert_eq!(m.bytes, m_dec.bytes);
    }
}

#[test]
fn bench_generate_keypair() {
    let mut rng = SeededRng::from_seed([42u8; 32]);

    let iterations = 100;
    let mut times = Vec::with_capacity(iterations);

    for _ in 0..iterations {
        let start = Instant::now();

        let _ = generate_keypair(&mut rng).expect("generate_keypair failed");

        times.push(start.elapsed())
    }

    times.sort_unstable();
    let median = if times.len() % 2 == 1 {
        times[times.len() / 2]
    } else {
        let mid = times.len() / 2;
        (times[mid - 1] + times[mid]) / 2
    };

    let median_ms = median.as_secs_f64() * 1000.0;
    println!("median time = {:.6} ms", median_ms);
}

#[test]
fn seeded_generator_follows_the_chacha_stream() {
    let mut ours = SeededRng::from_seed([7u8; 32]);
    let mut theirs = ChaCha20Rng::from_seed([7u8; 32]);

    for _ in 0..5 {
        assert_eq!(ours.next_u32(), theirs.next_u32());
        let mut bytes = [0u8; 32];
        theirs.fill_bytes(&mut bytes);
        assert_eq!(ours.fill_bytes(), bytes);
        assert_eq!(ours.random_scalar().bytes, DalekScalar::random(&mut theirs).to_bytes());
        assert_eq!(
            ours.random_point().bytes,
            RistrettoPoint::random(&mut theirs).compress().to_bytes()
        );
        assert_eq!(ours.word_pos, theirs.get_word_pos());
    }
}

#[test]
fn only_canonical_bytes_are_elements_and_scalars() {
    let p = RISTRETTO_BASEPOINT_POINT * DalekScalar::from(3u64);
    assert_eq!(Point::from_bytes(p.compress().to_bytes()), Some(point(&p)));
    assert_eq!(Point::from_bytes([0xff; 32]), None);
    assert_eq!(Scalar::from_bytes([0xff; 32]), None);
    let minus_one = -DalekScalar::ONE;
    assert_eq!(Scalar::from_bytes(minus_one.to_bytes()), Some(scalar(&minus_one)));
}

#[test]
fn generators_are_hashes_of_the_index() {
    let g = derive_generators(b"domain", b"seed", 3);
    assert_eq!(g.len(), 3);
    for i in 0..3u32 {
        let mut hasher = Sha512::new();
        hasher.update(b"domain");
        hasher.update(b"seed");
        hasher.update((i + 1).to_be_bytes());
        let expected = RistrettoPoint::hash_from_bytes::<Sha512>(&hasher.finalize());
        assert_eq!(g[i as usize].bytes, expected.compress().to_bytes());
    }
    assert!(derive_generators(b"domain", b"seed", 0).is_empty());
}

#[test]
fn key_pair_of_a_seed_has_the_fixed_generators_and_the_drawn_scalars() {
    let (sk, pk) = generate_keypair_from_seed(Ok([9u8; 32])).unwrap();
    let mut stream = ChaCha20Rng::from_seed([9u8; 32]);
    let g = derive_generators(b"mls-rs upke v1", b"mls-rs upke generators v1", UPKE_L);
    let mut expected_h = RistrettoPoint::identity();
    let mut expected_sk = Vec::new();
    let mut expected_pk = Vec::new();
    for g_i in &g {
        let x = DalekScalar::random(&mut stream);
        expected_h += dalek(g_i) * x;
        expected_sk.extend_from_slice(x.as_bytes());
        expected_pk.extend_from_slice(&g_i.bytes);
    }
    expected_pk.extend_from_slice(expected_h.compress().as_bytes());
    assert_eq!(sk.bytes, expected_sk);
    assert_eq!(pk.bytes, expected_pk);

    let (sk2, pk2) = generate_keypair_from_provider_random(|| Ok([9u8; 32])).unwrap();
    assert_eq!((sk2, pk2), (sk, pk));
}

#[test]
fn key_generation_hands_on_the_failure_to_draw() {
    let error = CryptoError { code: 11 };
    assert_eq!(generate_keypair_from_seed(Err(error)), Err(error));
    assert_eq!(generate_keypair_from_provider_random(|| Err(error)), Err(error));
}

#[test]
fn sampled_scalars_combine_generators() {
    let mut rng = SeededRng::from_seed([1u8; 32]);
    let x = sample_scalars(&mut rng, 4);
    let g = derive_generators(b"a", b"b", 4);
    let mut expected = RistrettoPoint::identity();
    for i in 0..4 {
        expected += dalek(&g[i]) * DalekScalar::from_canonical_bytes(x[i].bytes).unwrap();
    }
    assert_eq!(compute_h(&g, &x).bytes, expected.compress().to_bytes());
    assert_eq!(rng.word_pos, 64);
}

#[test]
fn serialized_keys_parse_back() {
    let mut rng = SeededRng::from_seed([2u8; 32]);
    let g = derive_generators(b"a", b"b", 5);
    let x = sample_scalars(&mut rng, 5);
    let h = compute_h(&g, &x);

    let pk = serialize_public_key(&g, &h);
    assert_eq!(pk.bytes.len(), 6 * 32);
    let (g2, h2) = parse_public_key(&pk, 5).unwrap();
    assert_eq!((g2, h2), (g, h));

    let sk = serialize_secret_key(&x);
    assert_eq!(parse_secret_key(&sk, 5).unwrap(), x);
}

#[test]
fn keys_of_the_wrong_form_are_refused() {
    let (sk, pk) = generate_keypair_from_seed(Ok([3u8; 32])).unwrap();

    assert_eq!(parse_public_key(&pk, 31), Err(UpkeError::InvalidLength));
    assert_eq!(parse_secret_key(&sk, 33), Err(UpkeError::InvalidLength));

    let mut bad_pk = pk.bytes.clone();
    bad_pk[32..64].copy_from_slice(&[0xffu8; 32]);
    let bad_pk = UpkePublicKey { bytes: bad_pk };
    assert_eq!(parse_public_key(&bad_pk, 32), Err(UpkeError::InvalidGroupElement));
    let mut bad_h = pk.bytes.clone();
    bad_h[1024..].copy_from_slice(&[0xffu8; 32]);
    assert_eq!(
        parse_public_key(&UpkePublicKey { bytes: bad_h }, 32),
        Err(UpkeError::InvalidGroupElement)
    );

    let mut bad_sk = sk.bytes.clone();
    bad_sk[64..96].copy_from_slice(&[0xffu8; 32]);
    let bad_sk = UpkeSecretKey { bytes: bad_sk };
    assert_eq!(parse_secret_key(&bad_sk, 32), Err(UpkeError::InvalidScalar));

    let mut rng = SeededRng::from_seed([4u8; 32]);
    assert_eq!(upke_upd_pk(&mut rng, &bad_pk, 32), Err(UpkeError::InvalidPoint));
    assert_eq!(rng.word_pos, 0);
}

#[test]
fn encrypting_one_by_one_or_together_is_the_same() {
    let mut rng = SeededRng::from_seed([15u8; 32]);
    let g = derive_generators(b"a", b"b", 3);
    let x = sample_scalars(&mut rng, 3);
    let h = compute_h(&g, &x);
    let (rs, ms) = drawn_messages(&mut rng, 2);
    let each: Vec<UpkeCiphertext> =
        rs.iter().zip(&ms).map(|(r, m)| u_enc_delta(&g, &h, r, m)).collect();
    assert_eq!(u_enc_delta_each(&g, &h, &rs, &ms), each);
    let sk = serialize_secret_key(&x);
    assert_eq!(upke_dec(&sk, &each[1], 3), Ok(ms[1]));
}

#[test]
fn ciphertexts_of_the_wrong_form_are_refused() {
    let (sk, pk) = generate_keypair_from_seed(Ok([5u8; 32])).unwrap();
    let (g, h) = parse_public_key(&pk, 32).unwrap();
    let m = point(&RISTRETTO_BASEPOINT_POINT);
    let ct = u_enc_delta(&g, &h, &scalar(&DalekScalar::from(77u64)), &m);
    assert_eq!(upke_dec(&sk, &ct, 32), Ok(m));
    let (fs, c) = parse_ciphertext(&ct, 32).unwrap();
    assert_eq!(fs[0].bytes, (dalek(&g[0]) * DalekScalar::from(77u64)).compress().to_bytes());
    assert_eq!(
        c.bytes,
        (dalek(&h) * DalekScalar::from(77u64) + RISTRETTO_BASEPOINT_POINT).compress().to_bytes()
    );

    let short =
        UpkeCiphertext { kem_output: ct.kem_output[32..].to_vec(), ciphertext: ct.ciphertext.clone() };
    assert_eq!(upke_dec(&sk, &short, 32), Err(UpkeError::InvalidLength));
    assert_eq!(parse_ciphertext(&short, 32), Err(UpkeError::InvalidLength));

    let mut bad = ct.clone();
    bad.kem_output[..32].copy_from_slice(&[0xffu8; 32]);
    assert_eq!(upke_dec(&sk, &bad, 32), Err(UpkeError::InvalidPoint));
    assert_eq!(parse_ciphertext(&bad, 32), Err(UpkeError::InvalidGroupElement));

    let bad_c = UpkeCiphertext { kem_output: ct.kem_output.clone(), ciphertext: vec![0xffu8; 32] };
    assert_eq!(upke_dec(&sk, &bad_c, 32), Err(UpkeError::InvalidPoint));

    let short_sk = UpkeSecretKey { bytes: sk.bytes[32..].to_vec() };
    assert_eq!(upke_dec(&short_sk, &ct, 32), Err(UpkeError::InvalidLength));
    let mut bad_sk = sk.clone();
    bad_sk.bytes[31] = 0xff;
    assert_eq!(upke_dec(&bad_sk, &ct, 32), Err(UpkeError::InvalidScalar));
}

#[test]
fn update_moves_the_key_by_the_bits_of_the_seed() {
    let (sk, pk) = generate_keypair_from_seed(Ok([6u8; 32])).unwrap();
    let mut seed = [0u8; 32];
    seed[0] = 0b0000_0101;
    seed[3] = 0b1000_0000;
    let bits = derive_delta_bits(&seed, 32);
    let set: Vec<usize> = (0..32).filter(|i| bits[*i] == 1).collect();
    assert_eq!(set, vec![0, 2, 31]);

    let (token, new_pk) = upd_pk_from_seed(&seed, &pk, 32).unwrap();
    let new_sk = upke_upd_sk(&sk, &token, 32).unwrap();
    let old = parse_secret_key(&sk, 32).unwrap();
    let new = parse_secret_key(&new_sk, 32).unwrap();
    for i in 0..32 {
        let o = DalekScalar::from_canonical_bytes(old[i].bytes).unwrap();
        let n = DalekScalar::from_canonical_bytes(new[i].bytes).unwrap();
        let d = DalekScalar::from(bits[i] as u64);
        assert_eq!(n, o + d);
    }
    let (g, h) = parse_public_key(&pk, 32).unwrap();
    let (g2, h2) = parse_public_key(&new_pk, 32).unwrap();
    assert_eq!(g2, g);
    assert_eq!(dalek(&h2), dalek(&h) + dalek(&g[0]) + dalek(&g[2]) + dalek(&g[31]));
    assert_eq!(compute_h(&g2, &new), h2);

    // The randomness of the first ciphertext is derived from the seed.
    let mut hasher = Sha512::new();
    hasher.update(seed);
    hasher.update(b"upke-ri");
    hasher.update(0u32.to_le_bytes());
    let wide: [u8; 64] = hasher.finalize().into();
    let r0 = DalekScalar::from_bytes_mod_order_wide(&wide);
    assert_eq!(
        token.0[0],
        u_enc_delta(&g, &h, &scalar(&r0), &point(&RISTRETTO_BASEPOINT_POINT))
    );
}

#[test]
fn a_seed_has_no_bits_for_more_generators() {
    let one = RISTRETTO_BASEPOINT_POINT.compress().to_bytes();
    let mut pk = UpkePublicKey { bytes: one.repeat(258) };
    let mut rng = SeededRng::from_seed([16u8; 32]);
    assert_eq!(upke_try_upd_pk(&mut rng, &pk, 257), None);
    assert_eq!(rng.word_pos, 0);

    // A key that does not parse is refused before any bit is needed.
    pk.bytes[32 * 200..32 * 201].copy_from_slice(&[0xffu8; 32]);
    assert_eq!(upke_try_upd_pk(&mut rng, &pk, 257), Some(Err(UpkeError::InvalidPoint)));
    assert_eq!(upke_upd_pk(&mut rng, &pk, 257), Err(UpkeError::InvalidPoint));
    assert_eq!(upd_pk_from_seed(&[1u8; 32], &pk, 257), Err(UpkeError::InvalidPoint));
    assert_eq!(rng.word_pos, 0);

    let pk = UpkePublicKey { bytes: one.repeat(3) };
    let updated = upke_try_upd_pk(&mut rng, &pk, 2);
    assert_eq!(updated, Some(upke_upd_pk(&mut SeededRng::from_seed([16u8; 32]), &pk, 2)));
    assert_eq!(rng.word_pos, 8);
}

#[test]
fn tokens_are_checked() {
    let (sk, pk) = generate_keypair_from_seed(Ok([8u8; 32])).unwrap();
    let (token, _) = upd_pk_from_seed(&[0xaau8; 32], &pk, 32).unwrap();
    assert_eq!(validate_update_token(&token, 32), Ok(()));
    assert_eq!(validate_update_token(&token, 31), Err(UpkeError::InvalidLength));
    assert_eq!(upke_upd_sk(&sk, &token, 31), Err(UpkeError::InvalidLength));

    // The length is looked at first, however many entries are asked for.
    assert_eq!(validate_update_token(&token, usize::MAX), Err(UpkeError::InvalidLength));
    assert_eq!(upke_upd_sk(&sk, &token, usize::MAX), Err(UpkeError::InvalidLength));

    let short = UpkeUpdateToken(token.0[1..].to_vec());
    assert_eq!(upke_upd_sk(&sk, &short, 32), Err(UpkeError::InvalidLength));

    // A ciphertext that holds neither of the two elements says nothing.
    let (g, h) = parse_public_key(&pk, 32).unwrap();
    let two = point(&(RISTRETTO_BASEPOINT_POINT * DalekScalar::from(2u64)));
    let mut other = token.clone();
    other.0[7] = u_enc_delta(&g, &h, &scalar(&DalekScalar::from(5u64)), &two);
    assert_eq!(validate_update_token(&other, 32), Ok(()));
    assert_eq!(upke_upd_sk(&sk, &other, 32), Err(UpkeError::InvalidUpdateToken));

    let mut broken = token.clone();
    broken.0[3].ciphertext = vec![0xffu8; 32];
    assert_eq!(validate_update_token(&broken, 32), Err(UpkeError::InvalidGroupElement));
    assert_eq!(upke_upd_sk(&sk, &broken, 32), Err(UpkeError::InvalidUpdateToken));

    let bad_sk = UpkeSecretKey { bytes: vec![0xffu8; 1024] };
    assert_eq!(upke_upd_sk(&bad_sk, &token, 32), Err(UpkeError::InvalidUpdateToken));
}
