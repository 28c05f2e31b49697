use qtreekem::crypto::{CipherSuiteProvider, CryptoError, HpkePublicKey, HpkeSecretKey};
use qtreekem::error::{MlsError, SerializationCause};
use qtreekem::leaf::LeafIndex;
use qtreekem::secret_sharing::{split_seed_bytes, SecretSharingError};
use qtreekem::tree_kem_private::{
    leaf_lca_level, path_key, DerivedKeys, GhostShare, GhostShareHolder, PathNode, TreeKemPrivate,
};
use rand_core::{OsRng, RngCore};
use sha2::{Digest, Sha512};

struct TestSuite {
    fails: bool,
}

impl CipherSuiteProvider for TestSuite {
    fn kdf_extract_size(&self) -> usize {
        32
    }

    fn random_bytes_vec(&self, count: usize) -> Result<Vec<u8>, CryptoError> {
        let mut bytes = vec![0u8; count];
        OsRng.fill_bytes(&mut bytes);
        Ok(bytes)
    }

    fn kem_derive(&self, ikm: &[u8]) -> Result<(HpkeSecretKey, HpkePublicKey), CryptoError> {
        if self.fails {
            return Err(CryptoError { code: 12 });
        }
        let secret = Sha512::digest(ikm)[..32].to_vec();
        let public = Sha512::digest(&secret)[..32].to_vec();
        Ok((HpkeSecretKey { bytes: secret }, HpkePublicKey { bytes: public }))
    }

    fn kem_generate(&self) -> Result<(HpkeSecretKey, HpkePublicKey), CryptoError> {
        let ikm = self.random_bytes_vec(32)?;
        self.kem_derive(&ikm)
    }
}

fn suite() -> TestSuite {
    TestSuite { fails: false }
}

fn random_hpke_secret_key() -> HpkeSecretKey {
    suite().kem_generate().unwrap().0
}

fn holder(leaf: u32, epoch: u64, id: u8, rank: u32, value: &[u8]) -> GhostShareHolder {
    GhostShareHolder {
        ghost_leaf: LeafIndex(leaf),
        key_epoch: epoch,
        share_id: id,
        holder_rank: rank,
        share_value: value.to_vec(),
    }
}

fn share(leaf: u32, epoch: u64, id: u8, value: &[u8]) -> GhostShare {
    GhostShare {
        ghost_leaf: LeafIndex(leaf),
        key_epoch: epoch,
        share_id: id,
        share_value: value.to_vec(),
    }
}

#[test]
fn test_create_self_leaf() {
    let secret = random_hpke_secret_key();

    let self_index = LeafIndex(42);

    let private_key = TreeKemPrivate::new_self_leaf(self_index, secret.clone());

    assert_eq!(private_key.self_index, self_index);
    assert_eq!(private_key.secret_keys.len(), 1);
    assert_eq!(private_key.secret_keys[0].as_ref().unwrap(), &secret)
}

// The tree has the leaves alice, bob and charlie. Alice has made an update path, and the key
// that charlie shares with her is that of the root: the path of charlie has two nodes, of
// which the lower one is filtered out, because the leaf beside charlie's is empty.
fn update_secrets_setup() -> (Vec<PathNode>, TreeKemPrivate, TreeKemPrivate, Vec<DerivedKeys>) {
    let (root_secret, root_public) = suite().kem_generate().unwrap();

    let mut alice_private = TreeKemPrivate::new_self_leaf(LeafIndex(0), random_hpke_secret_key());
    alice_private.secret_keys.resize(3, None);
    alice_private.secret_keys[2] = Some(root_secret.clone());

    let charlie_private = TreeKemPrivate::new_self_leaf(LeafIndex(2), random_hpke_secret_key());

    let path = vec![
        PathNode { filtered: true, public_key: Ok(None) },
        PathNode { filtered: false, public_key: Ok(Some(root_public.clone())) },
    ];
    let derived = vec![DerivedKeys::Pair(root_secret, root_public)];

    (path, charlie_private, alice_private, derived)
}

#[test]
fn test_update_secrets() {
    let (path, mut charlie_private, alice_private, derived) = update_secrets_setup();

    let existing_private = charlie_private.secret_keys.first().cloned().unwrap();

    charlie_private.update_secrets(LeafIndex(0), &path, &derived).unwrap();

    // Make sure that Charlie's private key didn't lose keys
    assert_eq!(charlie_private.secret_keys.len(), 3);

    // Check that the intersection of the secret keys of Alice and Charlie matches.
    // The intersection contains only the root.
    assert_eq!(alice_private.secret_keys[2], charlie_private.secret_keys[2]);

    assert_eq!(charlie_private.secret_keys[0].as_ref(), existing_private.as_ref());
}

#[test]
fn test_update_secrets_key_mismatch() {
    let (mut path, mut charlie_private, _, derived) = update_secrets_setup();

    // Sabotage the public tree
    path[1].public_key =
        Ok(Some(HpkePublicKey { bytes: suite().random_bytes_vec(32).unwrap() }));

    let res = charlie_private.update_secrets(LeafIndex(0), &path, &derived);

    assert!(matches!(res, Err(MlsError::PubKeyMismatch)));
}

fn setup_direct_path(self_index: LeafIndex, leaf_count: u32) -> TreeKemPrivate {
    let secret = random_hpke_secret_key();

    let mut private_key = TreeKemPrivate::new_self_leaf(self_index, secret.clone());

    // The direct path of a leaf in a tree of `leaf_count` leaves, and the leaf.
    let path_len = leaf_count.next_power_of_two().trailing_zeros();
    private_key.secret_keys = (0..path_len + 1).map(|_| Some(secret.clone())).collect();

    private_key
}

#[test]
fn test_update_leaf() {
    let self_leaf = LeafIndex(42);
    let mut private_key = setup_direct_path(self_leaf, 128);

    let new_secret = random_hpke_secret_key();

    private_key.update_leaf(new_secret.clone());

    // The update operation should have removed all the other keys in our direct path we
    // previously added
    assert!(private_key.secret_keys.iter().skip(1).all(|n| n.is_none()));

    // The secret key for our leaf should have been updated accordingly
    assert_eq!(private_key.secret_keys.first().unwrap(), &Some(new_secret));
    assert_eq!(private_key.secret_keys.len(), 8);
}

#[test]
fn a_new_member_from_outside_knows_nothing() {
    let private = TreeKemPrivate::new_for_external();
    assert_eq!(private.self_index, LeafIndex(0));
    assert!(private.secret_keys.is_empty());
    assert!(private.received_ghost_shares.is_empty());
    assert!(private.ghost_share_holders.is_empty());
    assert_eq!(TreeKemPrivate::new(LeafIndex(9)).self_index, LeafIndex(9));
}

#[test]
fn the_leaf_key_is_set_in_an_empty_or_a_full_store() {
    let mut private = TreeKemPrivate::new(LeafIndex(1));
    let first = random_hpke_secret_key();
    private.install_self_leaf_secret_key(first.clone());
    assert_eq!(private.secret_keys, vec![Some(first.clone())]);
    private.secret_keys.push(Some(first.clone()));
    let second = random_hpke_secret_key();
    private.install_self_leaf_secret_key(second.clone());
    assert_eq!(private.secret_keys, vec![Some(second), Some(first)]);
}

#[test]
fn received_shares_are_taken_once() {
    let mut private = TreeKemPrivate::new(LeafIndex(1));
    private.received_ghost_shares = vec![share(3, 7, 2, b"abc")];
    assert_eq!(private.take_received_ghost_shares(), vec![share(3, 7, 2, b"abc")]);
    assert!(private.take_received_ghost_shares().is_empty());
}

#[test]
fn received_shares_are_cached_without_repetition() {
    let mut private = TreeKemPrivate::new(LeafIndex(5));
    private.ghost_share_holders = vec![holder(3, 7, 1, 5, b"old")];
    private.received_ghost_shares = vec![
        share(3, 7, 1, b"new"),
        share(3, 7, 2, b"two"),
        share(3, 8, 1, b"later"),
        share(3, 7, 2, b"again"),
    ];
    private.cache_received_ghost_shares();
    let expected = vec![
        holder(3, 7, 1, 5, b"old"),
        holder(3, 7, 2, 5, b"two"),
        holder(3, 8, 1, 5, b"later"),
    ];
    assert_eq!(private.ghost_share_holders, expected);
    assert!(private.received_ghost_shares.is_empty());

    // The same shares once more change nothing.
    private.received_ghost_shares = vec![share(3, 7, 2, b"again"), share(3, 8, 1, b"later")];
    private.cache_received_ghost_shares();
    assert_eq!(private.ghost_share_holders, expected);
}

#[test]
fn shares_are_found_by_leaf_and_epoch() {
    let mut private = TreeKemPrivate::new(LeafIndex(5));
    private.ghost_share_holders = vec![
        holder(3, 7, 1, 5, b"a"),
        holder(4, 7, 1, 5, b"b"),
        holder(3, 8, 1, 5, b"c"),
        holder(3, 7, 2, 6, b"d"),
    ];
    assert_eq!(
        private.ghost_shares_for(LeafIndex(3), 7),
        vec![holder(3, 7, 1, 5, b"a"), holder(3, 7, 2, 6, b"d")]
    );
    assert!(private.ghost_shares_for(LeafIndex(9), 7).is_empty());
}

#[test]
fn held_shares_recover_the_seed() {
    let seed = suite().random_bytes_vec(32).unwrap();
    let shares = split_seed_bytes(&seed, 3, 6).unwrap();
    let mut private = TreeKemPrivate::new(LeafIndex(5));
    for i in [4usize, 4, 1, 0] {
        private.ghost_share_holders.push(holder(3, 7, 99, 1, b"noise"));
        private.ghost_share_holders.last_mut().unwrap().key_epoch = 6;
        private.ghost_share_holders.push(holder(3, 7, shares[i].id, 2, &shares[i].bytes));
    }
    assert_eq!(private.try_recover_ghost_seed(LeafIndex(3), 7, 3), Ok(seed.clone()));
    assert_eq!(
        private.try_recover_ghost_seed(LeafIndex(3), 7, 4),
        Err(SecretSharingError::RecoverFailed)
    );
    assert_eq!(
        private.try_recover_ghost_seed(LeafIndex(3), 7, 0),
        Err(SecretSharingError::InvalidThreshold)
    );
    assert_eq!(
        private.try_recover_ghost_seed(LeafIndex(4), 7, 1),
        Err(SecretSharingError::RecoverFailed)
    );

    let pair = private.recover_ghost_keypair(&suite(), LeafIndex(3), 7, 3).unwrap();
    assert_eq!(pair, suite().kem_derive(&seed).unwrap());
    assert_eq!(
        private.recover_ghost_keypair(&suite(), LeafIndex(3), 7, 5),
        Err(MlsError::SerializationError(SerializationCause::SecretSharing(
            SecretSharingError::RecoverFailed
        )))
    );
    assert_eq!(
        private.recover_ghost_keypair(&TestSuite { fails: true }, LeafIndex(3), 7, 3),
        Err(MlsError::CryptoProviderError(CryptoError { code: 12 }))
    );
}

#[test]
fn an_empty_share_is_of_no_account_while_there_are_too_few() {
    let mut private = TreeKemPrivate::new(LeafIndex(5));
    private.ghost_share_holders = vec![holder(3, 7, 1, 5, b"")];
    assert_eq!(
        private.try_recover_ghost_seed(LeafIndex(3), 7, 2),
        Err(SecretSharingError::RecoverFailed)
    );
}

#[test]
fn common_ancestors_are_counted_from_the_leaves() {
    assert_eq!(leaf_lca_level(6, 6), 0);
    assert_eq!(leaf_lca_level(0, 2), 2);
    assert_eq!(leaf_lca_level(4, 0), 3);
    assert_eq!(leaf_lca_level(0, 0xffff_fffe), 32);
}

#[test]
fn keys_below_a_mismatch_stay_set() {
    let (s0, p0) = suite().kem_generate().unwrap();
    let (s1, p1) = suite().kem_generate().unwrap();
    let (s2, p2) = suite().kem_generate().unwrap();
    let old = random_hpke_secret_key();
    let mut private = TreeKemPrivate::new_self_leaf(LeafIndex(1), old.clone());
    // The leaves 0 and 1 have the lowest node of the path in common.
    let mut path = vec![
        PathNode { filtered: false, public_key: Ok(Some(p0.clone())) },
        PathNode { filtered: true, public_key: Err(MlsError::InvalidNodeIndex) },
        PathNode { filtered: false, public_key: Ok(None) },
    ];
    let derived = vec![
        DerivedKeys::Pair(s0.clone(), p0.clone()),
        DerivedKeys::Pair(s1, p1),
        DerivedKeys::Pair(s2.clone(), p2.clone()),
    ];
    assert_eq!(
        private.update_secrets(LeafIndex(0), &path, &derived),
        Err(MlsError::PubKeyMismatch)
    );
    assert_eq!(private.secret_keys, vec![Some(old.clone()), Some(s0.clone()), None, None]);

    path[2].public_key = Err(MlsError::InvalidNodeIndex);
    assert_eq!(
        private.update_secrets(LeafIndex(0), &path, &derived),
        Err(MlsError::InvalidNodeIndex)
    );
    assert_eq!(
        private.update_secrets(
            LeafIndex(0),
            &path,
            &vec![DerivedKeys::NoSecret(MlsError::CryptoProviderError(CryptoError { code: 13 }))]
        ),
        Err(MlsError::CryptoProviderError(CryptoError { code: 13 }))
    );
    // Keys are needed for as long as every one before belongs to its node.
    assert!(private.needs_more_keys(LeafIndex(0), &path, &vec![]));
    let first = vec![DerivedKeys::Pair(s0.clone(), p0.clone())];
    assert!(private.needs_more_keys(LeafIndex(0), &path, &first));
    assert!(!private.needs_more_keys(LeafIndex(0), &path, &derived));
    let wrong = vec![DerivedKeys::Pair(s2.clone(), p2.clone())];
    assert!(!private.needs_more_keys(LeafIndex(0), &path, &wrong));
    let none = vec![DerivedKeys::NoKeyPair(MlsError::ExpectedNode)];
    assert!(!private.needs_more_keys(LeafIndex(0), &path, &none));
    // The common ancestor with leaf 2 is filtered out, and that with leaf 8 off the path.
    assert!(private.needs_more_keys(LeafIndex(2), &path, &vec![]));
    assert!(!private.needs_more_keys(LeafIndex(8), &path, &vec![]));

    // A store that is too long is cut.
    private.secret_keys.resize(9, None);
    path.truncate(1);
    assert_eq!(private.update_secrets(LeafIndex(0), &path, &derived), Ok(()));
    assert_eq!(private.secret_keys, vec![Some(old), Some(s0)]);

    let node = PathNode { filtered: false, public_key: Ok(Some(p2.clone())) };
    assert_eq!(path_key(&node, &DerivedKeys::Pair(s2.clone(), p2)), Ok(s2));
    assert_eq!(
        path_key(&node, &DerivedKeys::NoKeyPair(MlsError::ExpectedNode)),
        Err(MlsError::ExpectedNode)
    );
}
