use base64::Engine;
use qtreekem::secret_sharing::{
    decode_recovered, recover_seed_bytes, split_seed_bytes, SecretSharingError, ShareBytes,
};
use rand_core::{OsRng, RngCore};
use shamir::SecretData;

fn random_seed() -> Vec<u8> {
    let mut buf = vec![0u8; 32];
    OsRng.fill_bytes(&mut buf);
    buf
}

#[test]
fn split_then_recover_returns_original_seed() {
    let seed = random_seed();
    let threshold = 4u8;
    let share_count = 8u8;

    let shares = split_seed_bytes(&seed, threshold, share_count).expect("split must succeed");
    assert_eq!(shares.len(), share_count as usize);

    let subset =
        vec![shares[0].clone(), shares[2].clone(), shares[4].clone(), shares[3].clone()];
    let recovered = recover_seed_bytes(threshold, &subset)
        .expect("recover must succeed with threshold shares");

    assert_eq!(recovered, seed);
}

#[test]
fn recover_fails_with_insufficient_shares() {
    let seed = random_seed();

    let threshold = 3u8;
    let share_count = 5u8;

    let shares = split_seed_bytes(&seed, threshold, share_count).expect("split must succeed");

    let subset = vec![shares[0].clone(), shares[1].clone()];
    let res = recover_seed_bytes(threshold, &subset);

    assert!(matches!(res, Err(SecretSharingError::RecoverFailed)));
}

#[test]
fn recover_is_independent_of_order_for_same_subset() {
    let seed = random_seed();

    let threshold = 3u8;
    let share_count = 6u8;

    let shares = split_seed_bytes(&seed, threshold, share_count).expect("split must succeed");

    let subset_a = vec![shares[0].clone(), shares[3].clone(), shares[5].clone()];
    let subset_b = vec![shares[5].clone(), shares[0].clone(), shares[3].clone()];

    let rec_a = recover_seed_bytes(threshold, &subset_a).unwrap();
    let rec_b = recover_seed_bytes(threshold, &subset_b).unwrap();

    assert_eq!(rec_a, seed);
    assert_eq!(rec_b, seed);
}

#[test]
fn mixing_shares_from_different_seeds_fails_or_recovers_wrong_seed() {
    let seed1 = random_seed();
    let seed2 = random_seed();

    let threshold = 3u8;
    let share_count = 5u8;

    let s1 = split_seed_bytes(&seed1, threshold, share_count).unwrap();
    let s2 = split_seed_bytes(&seed2, threshold, share_count).unwrap();

    let mixed = vec![s1[0].clone(), s2[1].clone(), s1[2].clone()];

    let res = recover_seed_bytes(threshold, &mixed);

    match res {
        Err(_) => {}
        Ok(recovered) => {
            assert_ne!(recovered, seed1);
            assert_ne!(recovered, seed2);
        }
    }
}

#[test]
fn one_foreign_share_spoils_the_seed_wherever_it_stands() {
    let seed = b"the first of two seeds".to_vec();
    let other_seed = b"and the second of them".to_vec();
    let shares = split_seed_bytes(&seed, 3, 5).unwrap();
    let others = split_seed_bytes(&other_seed, 3, 5).unwrap();
    let picked = vec![shares[4].clone(), shares[0].clone(), shares[2].clone()];
    assert_eq!(recover_seed_bytes(3, &picked), Ok(seed.clone()));
    for (k, at) in [(0usize, 4usize), (1, 0), (2, 2)] {
        let mut mixed = picked.clone();
        mixed[k] = others[at].clone();
        assert_ne!(mixed[k], picked[k]);
        assert_ne!(recover_seed_bytes(3, &mixed), Ok(seed.clone()));

        // One bit in one byte is enough, and so is a byte too many.
        let mut bent = picked.clone();
        bent[k].bytes[7] ^= 1;
        assert_ne!(recover_seed_bytes(3, &bent), Ok(seed.clone()));
        let mut longer = picked.clone();
        longer[k].bytes.push(0);
        assert_ne!(recover_seed_bytes(3, &longer), Ok(seed.clone()));
    }
}

#[test]
fn mixed_shares_recover_neither_seed() {
    // Both splits have the threshold 3; two of the three shares are foreign to the second.
    let seed = b"the first of two seeds".to_vec();
    let other_seed = b"and the second of them".to_vec();
    let shares = split_seed_bytes(&seed, 3, 3).unwrap();
    let others = split_seed_bytes(&other_seed, 3, 3).unwrap();
    let mut mixed = vec![shares[0].clone(), others[1].clone(), shares[2].clone()];
    // At one place only the first of them differs from the second split's share.
    mixed[0].bytes[5] = others[0].bytes[5] ^ 7;
    mixed[2].bytes[5] = others[2].bytes[5];
    assert_ne!(recover_seed_bytes(3, &mixed), Ok(other_seed));

    let mut mixed = vec![shares[0].clone(), others[1].clone(), shares[2].clone()];
    mixed[1].bytes[9] = shares[1].bytes[9] ^ 1;
    assert_ne!(recover_seed_bytes(3, &mixed), Ok(seed));
}

#[test]
fn at_most_one_share_of_an_id_gives_the_seed() {
    let seed = vec![7u8; 3];
    let shares = split_seed_bytes(&seed, 2, 4).unwrap();
    let picked = vec![shares[3].clone(), shares[1].clone()];
    for place in 1..picked[0].bytes.len() {
        let given = (0..=255u8)
            .filter(|b| {
                let mut tried = picked.clone();
                tried[0].bytes[place] = *b;
                recover_seed_bytes(2, &tried) == Ok(seed.clone())
            })
            .count();
        assert_eq!(given, 1);
    }
}

#[test]
fn no_other_text_stands_for_a_seed() {
    // The last character of each holds bits that are not used, or the padding is wrong.
    for text in ["AB==", "AA", "AA=", "AA===", "AA==\n"] {
        assert_eq!(
            decode_recovered(Some(text.to_string())),
            Err(SecretSharingError::DecodeFailed)
        );
    }
    assert_eq!(decode_recovered(Some("AA==".to_string())), Ok(vec![0]));
}

#[test]
fn every_subset_of_threshold_size_recovers() {
    let seed = random_seed();
    let shares = split_seed_bytes(&seed, 2, 6).unwrap();
    for a in 0..6 {
        for b in 0..6 {
            if a != b {
                let picked = vec![shares[a].clone(), shares[b].clone()];
                assert_eq!(recover_seed_bytes(2, &picked).unwrap(), seed);
            }
        }
    }
}

#[test]
fn only_the_first_shares_count() {
    let seed = random_seed();
    let mut shares = split_seed_bytes(&seed, 3, 5).unwrap();
    shares[3].bytes = vec![];
    shares[4].bytes[0] = shares[0].bytes[0];
    assert_eq!(recover_seed_bytes(3, &shares).unwrap(), seed);
}

#[test]
fn shares_carry_their_id_and_one_byte_for_each_of_the_text() {
    let seed = vec![1u8, 2, 3, 4, 5];
    let shares = split_seed_bytes(&seed, 2, 255).unwrap();
    assert_eq!(shares.len(), 255);
    let text = base64::engine::general_purpose::STANDARD.encode(&seed);
    for (i, share) in shares.iter().enumerate() {
        assert_eq!(share.id as usize, i + 1);
        assert_eq!(share.bytes.len(), text.len() + 1);
        assert_eq!(share.bytes[0], share.id);
    }
    // The text behind the shares is the base64 form of the seed.
    let raw = vec![shares[7].bytes.clone(), shares[200].bytes.clone()];
    assert_eq!(SecretData::recover_secret(2, raw).unwrap(), text);
}

#[test]
fn a_threshold_of_one_and_an_empty_seed_work() {
    let shares = split_seed_bytes(&[], 1, 1).unwrap();
    assert_eq!(shares.len(), 1);
    assert_eq!(recover_seed_bytes(1, &shares).unwrap(), Vec::<u8>::new());
}

#[test]
fn bad_parameters_are_refused() {
    assert_eq!(split_seed_bytes(b"x", 0, 3), Err(SecretSharingError::InvalidThreshold));
    assert_eq!(split_seed_bytes(b"x", 0, 0), Err(SecretSharingError::InvalidThreshold));
    assert_eq!(split_seed_bytes(b"x", 3, 2), Err(SecretSharingError::InvalidShareCount));
    assert_eq!(split_seed_bytes(b"x", 1, 0), Err(SecretSharingError::InvalidShareCount));
    assert_eq!(recover_seed_bytes(0, &[]), Err(SecretSharingError::InvalidThreshold));
    assert_eq!(recover_seed_bytes(1, &[]), Err(SecretSharingError::RecoverFailed));
}

#[test]
fn repeated_shares_recover_nothing() {
    let shares = split_seed_bytes(b"seed", 2, 3).unwrap();
    let twice = vec![shares[1].clone(), shares[1].clone()];
    assert_eq!(recover_seed_bytes(2, &twice), Err(SecretSharingError::RecoverFailed));
}

#[test]
fn shares_of_other_text_are_not_decoded() {
    let data = SecretData::with_secret("no base64!", 2);
    let shares: Vec<ShareBytes> = (1..=2u8)
        .map(|id| ShareBytes { id, bytes: data.get_share(id).unwrap() })
        .collect();
    assert_eq!(recover_seed_bytes(2, &shares), Err(SecretSharingError::DecodeFailed));
}

#[test]
fn recovered_text_is_decoded() {
    assert_eq!(decode_recovered(None), Err(SecretSharingError::RecoverFailed));
    assert_eq!(decode_recovered(Some("****".to_string())), Err(SecretSharingError::DecodeFailed));
    assert_eq!(decode_recovered(Some("AQID".to_string())), Ok(vec![1, 2, 3]));
}
