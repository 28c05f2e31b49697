use std::cell::Cell;

use qtreekem::crypto::{CipherSuiteProvider, CryptoError, HpkePublicKey, HpkeSecretKey};
use qtreekem::error::MlsError;
use qtreekem::ghosts::{
    ghost_action, renew_leaf, update_ghost_members, GhostAction, GhostKeyReason, QuarantineDelays,
};
use qtreekem::leaf::{
    Capabilities, ExtensionList, LeafIndex, LeafNode, LeafNodeSource, SigningIdentity,
};
use qtreekem::proposal::{Proposal, RemoveProposal};
use rand_core::{OsRng, RngCore};
use sha2::{Digest, Sha512};

const DELAYS: QuarantineDelays =
    QuarantineDelays { inactivity: 10, ghost_key_update: 5, delete_from_quarantine: 60 };

struct TestSuite {
    draws_left: Cell<u32>,
    derives_left: Cell<u32>,
}

fn suite() -> TestSuite {
    TestSuite { draws_left: Cell::new(u32::MAX), derives_left: Cell::new(u32::MAX) }
}

const NO_DRAW: CryptoError = CryptoError { code: 1 };
const NO_KEY: CryptoError = CryptoError { code: 2 };

fn spend(left: &Cell<u32>, error: CryptoError) -> Result<(), CryptoError> {
    if left.get() == 0 {
        return Err(error);
    }
    left.set(left.get() - 1);
    Ok(())
}

impl CipherSuiteProvider for TestSuite {
    fn kdf_extract_size(&self) -> usize {
        48
    }

    fn random_bytes_vec(&self, count: usize) -> Result<Vec<u8>, CryptoError> {
        spend(&self.draws_left, NO_DRAW)?;
        let mut bytes = vec![0u8; count];
        OsRng.fill_bytes(&mut bytes);
        Ok(bytes)
    }

    fn kem_derive(&self, ikm: &[u8]) -> Result<(HpkeSecretKey, HpkePublicKey), CryptoError> {
        spend(&self.derives_left, NO_KEY)?;
        let secret = Sha512::digest(ikm)[..32].to_vec();
        let public = Sha512::digest(&secret)[..32].to_vec();
        Ok((HpkeSecretKey { bytes: secret }, HpkePublicKey { bytes: public }))
    }

    fn kem_generate(&self) -> Result<(HpkeSecretKey, HpkePublicKey), CryptoError> {
        let ikm = self.random_bytes_vec(32)?;
        self.kem_derive(&ikm)
    }
}

fn leaf(epk: u64, equar: u64) -> LeafNode {
    LeafNode {
        public_key: HpkePublicKey { bytes: vec![1; 32] },
        signing_identity: Some(SigningIdentity { bytes: b"member".to_vec() }),
        capabilities: Capabilities { bytes: vec![2] },
        leaf_node_source: LeafNodeSource::Commit(vec![3]),
        extensions: ExtensionList { bytes: vec![4] },
        epk,
        equar,
        signature: vec![1, 2, 3],
    }
}

fn five_leaves(next_epoch: u64) -> Vec<(LeafIndex, LeafNode)> {
    (0..5).map(|i| (LeafIndex(i), leaf(next_epoch, 0))).collect()
}

#[test]
fn test_update_ghost_members() {
    let b = LeafIndex(1);
    let next_epoch: u64 = 100;
    let mut leaves = five_leaves(next_epoch);

    // B must be a ghost
    leaves[1].1.mark_as_ghost(65);
    leaves[1].1.epk = next_epoch - DELAYS.ghost_key_update;

    let mut proposals = Vec::new();
    let mut pending = Vec::new();

    let ghost_updates = update_ghost_members(
        &leaves,
        &suite(),
        &DELAYS,
        &mut proposals,
        &mut pending,
        next_epoch,
    )
    .unwrap();

    assert!(
        pending
            .iter()
            .any(|p| p.leaf_index == b && matches!(p.reason, GhostKeyReason::Rotation)),
        "expected Rotation for ghost member when epk is old enough"
    );
    assert!(
        ghost_updates.iter().any(|u| u.leaf_index == b),
        "expected a ghost leaf update for key rotation"
    );
}

#[test]
fn test_update_ghost_members_quarantines_non_ghost_based_on_epk() {
    let b = LeafIndex(1);
    let next_epoch: u64 = 200;
    let mut leaves = five_leaves(next_epoch);

    leaves[1].1.equar = 0;
    leaves[1].1.epk = next_epoch - DELAYS.inactivity;

    let mut proposals = Vec::new();
    let mut pending = Vec::new();

    let ghost_updates = update_ghost_members(
        &leaves,
        &suite(),
        &DELAYS,
        &mut proposals,
        &mut pending,
        next_epoch,
    )
    .unwrap();

    assert!(
        pending
            .iter()
            .any(|p| p.leaf_index == b && matches!(p.reason, GhostKeyReason::NewQuarantine)),
        "expected NewQuarantine for inactive non-ghost member"
    );

    let updated = ghost_updates
        .iter()
        .find(|u| u.leaf_index == b)
        .map(|u| &u.leaf_node)
        .expect("expected ghost leaf update");

    assert_eq!(updated.equar, next_epoch, "expected equar set to next_epoch");
    assert_eq!(updated.epk, next_epoch, "expected epk set to next_epoch");
    assert!(updated.is_ghost(), "expected updated leaf to be ghost");
}

#[test]
fn each_delay_takes_effect_when_it_is_reached() {
    assert_eq!(ghost_action(&leaf(91, 0), 100, &DELAYS), GhostAction::Keep);
    assert_eq!(
        ghost_action(&leaf(90, 0), 100, &DELAYS),
        GhostAction::Renew(GhostKeyReason::NewQuarantine)
    );
    assert_eq!(ghost_action(&leaf(96, 50), 100, &DELAYS), GhostAction::Keep);
    assert_eq!(
        ghost_action(&leaf(95, 50), 100, &DELAYS),
        GhostAction::Renew(GhostKeyReason::Rotation)
    );
    assert_eq!(
        ghost_action(&leaf(90, 41), 100, &DELAYS),
        GhostAction::Renew(GhostKeyReason::Rotation)
    );
    assert_eq!(ghost_action(&leaf(100, 40), 100, &DELAYS), GhostAction::Remove);
    // Epochs that lie ahead are no older than now.
    assert_eq!(ghost_action(&leaf(500, 0), 100, &DELAYS), GhostAction::Keep);
    assert_eq!(ghost_action(&leaf(500, 400), 100, &DELAYS), GhostAction::Keep);
}

#[test]
fn a_commit_removes_renews_and_keeps() {
    let suite = suite();
    let leaves = vec![
        (LeafIndex(0), leaf(100, 0)),
        (LeafIndex(2), leaf(100, 40)),
        (LeafIndex(3), leaf(10, 0)),
        (LeafIndex(7), leaf(60, 50)),
        (LeafIndex(8), leaf(1, 1)),
    ];
    let mut proposals = vec![Proposal::Remove(RemoveProposal { to_remove: LeafIndex(9) })];
    let mut pending = Vec::new();
    let updates =
        update_ghost_members(&leaves, &suite, &DELAYS, &mut proposals, &mut pending, 100).unwrap();

    let removed: Vec<u32> = proposals
        .iter()
        .map(|p| match p {
            Proposal::Remove(r) => r.to_remove.0,
            _ => panic!("not a removal"),
        })
        .collect();
    assert_eq!(removed, vec![9, 2, 8]);

    assert_eq!(pending.len(), 2);
    assert_eq!(updates.len(), 2);
    for (p, u) in pending.iter().zip(&updates) {
        assert_eq!(p.leaf_index, u.leaf_index);
        assert_eq!(p.epoch, 100);
        assert_eq!(p.seed.len(), 48);
        assert_eq!(suite.kem_derive(&p.seed).unwrap().1, u.leaf_node.public_key);
    }
    assert_eq!(pending[0].leaf_index, LeafIndex(3));
    assert_eq!(pending[0].reason, GhostKeyReason::NewQuarantine);
    assert_eq!(pending[1].leaf_index, LeafIndex(7));
    assert_eq!(pending[1].reason, GhostKeyReason::Rotation);

    // A new ghost has neither identity nor signature.
    assert_eq!(updates[0].leaf_node.signing_identity, None);
    assert_eq!(updates[0].leaf_node.signature, vec![0]);
    assert_eq!(updates[0].leaf_node.leaf_node_source, LeafNodeSource::GhostLeaf);
    assert_eq!(updates[0].leaf_node.capabilities, Capabilities { bytes: vec![2] });
    // A rotation changes the key and its epoch.
    let mut rotated = leaf(100, 50);
    rotated.public_key = updates[1].leaf_node.public_key.clone();
    assert_eq!(updates[1].leaf_node, rotated);

    // What was renewed is left alone for the rest of the epoch.
    for u in &updates {
        assert_eq!(ghost_action(&u.leaf_node, 100, &DELAYS), GhostAction::Keep);
    }
}

#[test]
fn a_failing_provider_stops_the_commit() {
    let leaves =
        vec![(LeafIndex(0), leaf(1, 40)), (LeafIndex(1), leaf(1, 0)), (LeafIndex(2), leaf(1, 0))];
    let cases = [(1, 9, 1, NO_DRAW), (9, 1, 1, NO_KEY), (0, 9, 0, NO_DRAW), (9, 0, 0, NO_KEY)];
    for (draws, derives, done, error) in cases {
        let suite = TestSuite { draws_left: Cell::new(draws), derives_left: Cell::new(derives) };
        let mut proposals = Vec::new();
        let mut pending = Vec::new();
        let res =
            update_ghost_members(&leaves, &suite, &DELAYS, &mut proposals, &mut pending, 100);
        assert_eq!(res, Err(MlsError::CryptoProviderError(error)));
        assert_eq!(proposals.len(), 1);
        assert_eq!(pending.len(), done);
    }
}

#[test]
fn renewed_leaves_depend_on_the_reason() {
    let key = HpkePublicKey { bytes: vec![9; 32] };
    let quarantined = renew_leaf(&leaf(3, 0), GhostKeyReason::NewQuarantine, key.clone(), 20);
    assert_eq!((quarantined.epk, quarantined.equar), (20, 20));
    assert_eq!(quarantined.public_key, key);
    let rotated = renew_leaf(&leaf(3, 4), GhostKeyReason::Rotation, key.clone(), 20);
    assert_eq!((rotated.epk, rotated.equar), (20, 4));
    assert_eq!(rotated.signature, vec![1, 2, 3]);
}
