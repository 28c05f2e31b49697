use qtreekem::commit::{
    added_members, apply_ghost_updates, begin_commit, describe_commit, CommitEffect,
    GhostMaintenance, GroupStatus, Resolution, Sender,
};
use qtreekem::commit_builder::{
    CommitBuilder, JustPreSharedKeyID, MlsTime, ResumptionPSKUsage, SignatureSecretKey,
};
use qtreekem::crypto::{CipherSuiteProvider, CryptoError, HpkePublicKey, HpkeSecretKey};
use qtreekem::error::MlsError;
use qtreekem::ghost_sharing::GhostSharingParams;
use qtreekem::ghosts::{GhostLeafUpdate, QuarantineDelays};
use qtreekem::leaf::{
    Capabilities, ExtensionList, LeafIndex, LeafNode, LeafNodeSource, SigningIdentity,
};
use qtreekem::proposal::{
    path_update_required, AddProposal, CustomProposal, PreSharedKeyProposal, Proposal,
    ReInitProposal, RemoveProposal,
};
use qtreekem::tree_kem_private::TreeKemPrivate;
use qtreekem::welcome::{
    make_welcome_messages, plan_group_info, unsigned_group_info, CommitOptions,
    EncryptedGroupSecrets, MlsMessage, MlsMessagePayload,
};
use rand_core::{OsRng, RngCore};
use sha2::{Digest, Sha512};

struct TestSuite;

impl CipherSuiteProvider for TestSuite {
    fn kdf_extract_size(&self) -> usize {
        32
    }

    fn random_bytes_vec(&self, count: usize) -> Result<Vec<u8>, CryptoError> {
        let mut bytes = vec![0u8; count];
        OsRng.fill_bytes(&mut bytes);
        Ok(bytes)
    }

    fn kem_derive(&self, ikm: &[u8]) -> Result<(HpkeSecretKey, HpkePublicKey), CryptoError> {
        let secret = Sha512::digest(ikm)[..32].to_vec();
        let public = Sha512::digest(&secret)[..32].to_vec();
        Ok((HpkeSecretKey { bytes: secret }, HpkePublicKey { bytes: public }))
    }

    fn kem_generate(&self) -> Result<(HpkeSecretKey, HpkePublicKey), CryptoError> {
        let ikm = self.random_bytes_vec(32)?;
        self.kem_derive(&ikm)
    }
}

const DELAYS: QuarantineDelays =
    QuarantineDelays { inactivity: 10, ghost_key_update: 5, delete_from_quarantine: 60 };

const OPTIONS: CommitOptions = CommitOptions {
    path_required: false,
    ratchet_tree_extension: true,
    single_welcome_message: true,
    allow_external_commit: false,
    always_out_of_band_ratchet_tree: false,
};

fn leaf(epk: u64) -> LeafNode {
    LeafNode {
        public_key: HpkePublicKey { bytes: vec![1; 32] },
        signing_identity: Some(SigningIdentity { bytes: b"member".to_vec() }),
        capabilities: Capabilities::default(),
        leaf_node_source: LeafNodeSource::KeyPackage(vec![7]),
        extensions: ExtensionList::default(),
        epk,
        equar: 0,
        signature: vec![1, 2, 3],
    }
}

fn status() -> GroupStatus {
    GroupStatus {
        has_pending_commit: false,
        has_pending_reinit: false,
        epoch: 29,
        self_index: LeafIndex(0),
        signer: SignatureSecretKey { bytes: b"old".to_vec() },
    }
}

fn resolution(applied: Vec<Proposal>) -> Resolution {
    Resolution { applied, unused: vec![], added_indexes: vec![], external_init_index: None }
}

fn add(package: &[u8]) -> Proposal {
    Proposal::Add(AddProposal { key_package: package.to_vec() })
}

fn remove(i: u32) -> Proposal {
    Proposal::Remove(RemoveProposal { to_remove: LeafIndex(i) })
}

fn reinit(parameters: &[u8]) -> Proposal {
    Proposal::ReInit(ReInitProposal { parameters: parameters.to_vec() })
}

#[test]
fn builder_collects_what_it_is_given() {
    let custom = CustomProposal { proposal_type: 5, data: vec![6] };
    let builder = CommitBuilder::new()
        .add_member(Ok(AddProposal { key_package: vec![1] }))
        .unwrap()
        .remove_member(Ok(RemoveProposal { to_remove: LeafIndex(4) }))
        .unwrap()
        .set_group_context_ext(ExtensionList { bytes: vec![2] })
        .unwrap()
        .add_external_psk(Ok(PreSharedKeyProposal { psk_id: vec![3] }))
        .unwrap()
        .add_resumption_psk(Ok(PreSharedKeyProposal { psk_id: vec![4] }))
        .unwrap()
        .reinit(Ok(ReInitProposal { parameters: vec![5] }))
        .unwrap()
        .custom_proposal(custom.clone())
        .raw_proposal(remove(8))
        .raw_proposals(vec![remove(9), add(b"x")])
        .authenticated_data(vec![10])
        .set_group_info_ext(ExtensionList { bytes: vec![11] })
        .set_leaf_node_extensions(ExtensionList { bytes: vec![12] })
        .set_new_signing_identity(
            SignatureSecretKey { bytes: vec![13] },
            SigningIdentity { bytes: vec![14] },
        )
        .commit_time(MlsTime { seconds: 15 });
    assert_eq!(
        builder.proposals,
        vec![
            add(&[1]),
            remove(4),
            Proposal::GroupContextExtensions(ExtensionList { bytes: vec![2] }),
            Proposal::Psk(PreSharedKeyProposal { psk_id: vec![3] }),
            Proposal::Psk(PreSharedKeyProposal { psk_id: vec![4] }),
            reinit(&[5]),
            Proposal::Custom(custom),
            remove(8),
            remove(9),
            add(b"x"),
        ]
    );
    assert_eq!(builder.authenticated_data, vec![10]);
    assert_eq!(builder.group_info_extensions.bytes, vec![11]);
    assert_eq!(builder.new_leaf_node_extensions.unwrap().bytes, vec![12]);
    assert_eq!(builder.new_signer.unwrap().bytes, vec![13]);
    assert_eq!(builder.new_signing_identity.unwrap().bytes, vec![14]);
    assert_eq!(builder.commit_time, Some(MlsTime { seconds: 15 }));
}

#[test]
fn builder_hands_on_what_the_group_refuses() {
    let e = MlsError::InvalidProposal;
    assert_eq!(CommitBuilder::new().add_member(Err(e)), Err(e));
    assert_eq!(CommitBuilder::new().remove_member(Err(e)), Err(e));
    assert_eq!(CommitBuilder::new().add_external_psk(Err(e)), Err(e));
    assert_eq!(CommitBuilder::new().add_resumption_psk(Err(e)), Err(e));
    assert_eq!(CommitBuilder::new().reinit(Err(e)), Err(e));
    assert_eq!(
        CommitBuilder::external_psk_id(vec![1]),
        JustPreSharedKeyID::External(vec![1])
    );
    assert_eq!(
        CommitBuilder::resumption_psk_id(7, vec![2]),
        JustPreSharedKeyID::Resumption {
            usage: ResumptionPSKUsage::Application,
            psk_group_id: vec![2],
            psk_epoch: 7
        }
    );
}

#[test]
fn a_group_that_waits_admits_no_commit() {
    let mut waiting = status();
    waiting.has_pending_reinit = true;
    assert_eq!(
        begin_commit(&waiting, CommitBuilder::new(), false, None),
        Err(MlsError::GroupUsedAfterReInit)
    );
    waiting.has_pending_commit = true;
    assert_eq!(
        begin_commit(&waiting, CommitBuilder::new(), false, None),
        Err(MlsError::ExistingPendingCommit)
    );
}

#[test]
fn admission_settles_sender_time_and_signer() {
    let now = Some(MlsTime { seconds: 100 });
    let start = begin_commit(&status(), CommitBuilder::new(), false, now).unwrap();
    assert_eq!(start.sender, Sender::Member(0));
    assert_eq!(start.next_epoch, 30);
    assert_eq!(start.time, now);
    assert_eq!(start.new_signer.bytes, b"old");

    let builder = CommitBuilder::new().commit_time(MlsTime { seconds: 5 }).set_new_signing_identity(
        SignatureSecretKey { bytes: b"new".to_vec() },
        SigningIdentity { bytes: b"me".to_vec() },
    );
    let start = begin_commit(&status(), builder, true, now).unwrap();
    assert_eq!(start.sender, Sender::NewMemberCommit);
    assert_eq!(start.time, Some(MlsTime { seconds: 5 }));
    assert_eq!(start.new_signer.bytes, b"new");
    assert_eq!(start.new_signing_identity.unwrap().bytes, b"me");
}

#[test]
fn ghost_updates_replace_only_leaves_that_are_there() {
    let update = |i: u32, epk: u64| GhostLeafUpdate { leaf_index: LeafIndex(i), leaf_node: leaf(epk) };
    let mut leaves = vec![Some(leaf(1)), None, Some(leaf(2))];
    let mut received = leaves.clone();
    let updates = vec![update(2, 7), update(1, 8), update(5, 9), update(2, 10)];
    let touched = apply_ghost_updates(&mut leaves, &updates);
    assert_eq!(touched, vec![LeafIndex(2), LeafIndex(2)]);
    assert_eq!(leaves, vec![Some(leaf(1)), None, Some(leaf(10))]);
    // Whoever starts from the same tree ends with the same tree.
    assert_eq!(apply_ghost_updates(&mut received, &updates), touched);
    assert_eq!(received, leaves);
    assert!(apply_ghost_updates(&mut leaves, &vec![]).is_empty());
}

#[test]
fn only_additions_keys_and_reinitializations_do_without_a_path() {
    let psk = || Proposal::Psk(PreSharedKeyProposal { psk_id: vec![] });
    assert!(path_update_required(&vec![]));
    assert!(!path_update_required(&vec![add(b"a"), psk(), reinit(b"r")]));
    assert!(path_update_required(&vec![add(b"a"), remove(3), psk()]));
    assert!(path_update_required(&vec![Proposal::GroupContextExtensions(
        ExtensionList::default()
    )]));
    assert!(path_update_required(&vec![Proposal::Custom(CustomProposal {
        proposal_type: 1,
        data: vec![]
    })]));
}

#[test]
fn a_member_in_quarantine_gets_its_key_back() {
    let suite = TestSuite;
    // Nine members; the one at 1 has not been active for long.
    let mut leaves: Vec<(LeafIndex, LeafNode)> =
        (0..9).map(|i| (LeafIndex(i), leaf(if i == 1 { 20 } else { 29 }))).collect();
    let bob = LeafIndex(1);

    let mut start = begin_commit(&status(), CommitBuilder::new(), false, None).unwrap();
    let maintenance = start.maintain_ghosts(&leaves, &suite, &DELAYS).unwrap();
    assert_eq!(maintenance.pending_ghost_keys.len(), 1);
    assert!(start.proposals.is_empty());

    let mut tree: Vec<Option<LeafNode>> = leaves.drain(..).map(|(_, l)| Some(l)).collect();
    let (commit, touched) =
        start.resolve(maintenance, resolution(vec![add(b"new")]), &mut tree);
    assert_eq!(touched, vec![bob]);
    let ghost = tree[1].as_ref().unwrap();
    assert!(ghost.is_ghost());
    assert_eq!(ghost.equar, 30);

    // The committer shares the seed along its path, though nothing else asks for one.
    let mut private = TreeKemPrivate::new(LeafIndex(0));
    let mut present = private.clone();
    commit.settle_index(&mut private, &mut present).unwrap();
    assert_eq!(private, present);
    let plan = commit
        .plan_path(
            &mut private,
            &OPTIONS,
            &GhostSharingParams::default(),
            None,
            Ok(ExtensionList { bytes: vec![3] }),
            Ok(vec![false, false, true, false]),
        )
        .unwrap()
        .unwrap();
    assert_eq!(plan.leaf_extensions.bytes, vec![3]);

    // Members below the nodes cache what they got; Bob collects from three of them.
    let mut bobs = TreeKemPrivate::new(bob);
    bobs.ghost_share_holders.extend(private.ghost_shares_for(bob, 30));
    for (rank, p) in [(4u32, 1usize), (8, 3)] {
        let mut member = TreeKemPrivate::new(LeafIndex(rank));
        member.received_ghost_shares = plan.ghost_shares[p].clone();
        member.cache_received_ghost_shares();
        bobs.ghost_share_holders.extend(member.ghost_shares_for(bob, 30));
    }
    let (sk, pk) = bobs.recover_ghost_keypair(&suite, bob, 30, 3).unwrap();
    assert_eq!(pk, ghost.public_key);
    bobs.install_self_leaf_secret_key(sk.clone());
    assert_eq!(bobs.secret_keys, vec![Some(sk)]);

    let to_sign =
        commit.into_signing(&Some(plan), vec![b"new".to_vec()], Some(b"path".to_vec()));
    assert_eq!(to_sign.commit.ghost_updates.len(), 1);
    assert_eq!(to_sign.sender, Sender::Member(0));
    let end = to_sign.conclude(
        &OPTIONS,
        LeafIndex(0),
        b"message".to_vec(),
        vec![],
        b"tree".to_vec(),
        None,
    );
    assert!(end.output.contains_update_path);
    assert_eq!(end.output.commit_message(), &b"message".to_vec());
    assert!(end.output.welcome_messages().is_empty());
    assert_eq!(end.output.ratchet_tree(), None);
    assert_eq!(end.output.external_commit_group_info(), None);
    assert!(end.output.unused_proposals().is_empty());
    assert_eq!(end.description.effect, CommitEffect::NewEpoch);
    assert_eq!(end.pending_reinit, None);
    assert_eq!(end.signer.bytes, b"old");
}

#[test]
fn a_commit_without_need_carries_no_path() {
    let start = begin_commit(&status(), CommitBuilder::new(), false, None).unwrap();
    let quiet = GhostMaintenance { pending_ghost_keys: vec![], ghost_updates: vec![] };
    let (commit, touched) = start.resolve(quiet, resolution(vec![add(b"a")]), &mut vec![]);
    assert!(touched.is_empty());
    let mut private = TreeKemPrivate::new(LeafIndex(0));
    let sharing = GhostSharingParams::default();
    let mut plan = |options: &CommitOptions| {
        commit.plan_path(
            &mut private,
            options,
            &sharing,
            None,
            Err(MlsError::ExpectedNode),
            Err(MlsError::InvalidNodeIndex),
        )
    };
    assert_eq!(plan(&OPTIONS), Ok(None));
    let strict = CommitOptions { path_required: true, ..OPTIONS };
    assert_eq!(plan(&strict), Err(MlsError::ExpectedNode));
    let external = Some(ExtensionList { bytes: vec![9] });
    assert_eq!(
        commit.plan_path(
            &mut private,
            &strict,
            &sharing,
            external,
            Err(MlsError::ExpectedNode),
            Err(MlsError::InvalidNodeIndex),
        ),
        Err(MlsError::InvalidNodeIndex)
    );

    // The group info for outsiders goes with the output if the options let them commit.
    let message = || {
        let info = unsigned_group_info(
            &b"context".to_vec(),
            ExtensionList { bytes: vec![] },
            &b"tag".to_vec(),
            LeafIndex(0),
        );
        MlsMessage { version: 1, payload: MlsMessagePayload::GroupInfo(info) }
    };
    let open = CommitOptions { allow_external_commit: true, ..OPTIONS };
    let to_sign = commit.into_signing(&None, vec![], None);
    assert_eq!(to_sign.commit.path, None);
    let end =
        to_sign.conclude(&open, LeafIndex(0), vec![], vec![], vec![], Some(message()));
    assert!(!end.output.contains_update_path);
    assert_eq!(end.output.external_commit_group_info(), Some(&message()));
}

#[test]
fn requested_extensions_go_before_those_of_the_leaf() {
    let builder = CommitBuilder::new().set_leaf_node_extensions(ExtensionList { bytes: vec![1] });
    let start = begin_commit(&status(), builder, true, None).unwrap();
    let quiet = GhostMaintenance { pending_ghost_keys: vec![], ghost_updates: vec![] };
    let (commit, _) = start.resolve(quiet, resolution(vec![]), &mut vec![]);
    let mut private = TreeKemPrivate::new(LeafIndex(0));
    let plan = commit
        .plan_path(
            &mut private,
            &OPTIONS,
            &GhostSharingParams::default(),
            Some(ExtensionList { bytes: vec![2] }),
            Ok(ExtensionList { bytes: vec![3] }),
            Ok(vec![]),
        )
        .unwrap()
        .unwrap();
    assert_eq!(plan.leaf_extensions.bytes, vec![1]);
    assert!(plan.ghost_shares.is_empty());
}

#[test]
fn a_member_from_outside_takes_its_place() {
    let quiet = || GhostMaintenance { pending_ghost_keys: vec![], ghost_updates: vec![] };
    let mut private = TreeKemPrivate::new_for_external();
    let mut present = TreeKemPrivate::new_for_external();

    let start = begin_commit(&status(), CommitBuilder::new(), true, None).unwrap();
    let (commit, _) = start.resolve(quiet(), resolution(vec![]), &mut vec![]);
    assert_eq!(
        commit.settle_index(&mut private, &mut present),
        Err(MlsError::ExternalCommitMissingExternalInit)
    );

    let start = begin_commit(&status(), CommitBuilder::new(), true, None).unwrap();
    let placed =
        Resolution { external_init_index: Some(LeafIndex(6)), ..resolution(vec![]) };
    let (commit, _) = start.resolve(quiet(), placed, &mut vec![]);
    commit.settle_index(&mut private, &mut present).unwrap();
    assert_eq!(private.self_index, LeafIndex(6));
    assert_eq!(present.self_index, LeafIndex(6));
}

#[test]
fn new_members_are_paired_with_their_places() {
    let applied = vec![remove(1), add(b"a"), reinit(b"r"), add(b"b"), add(b"c")];
    let places = vec![LeafIndex(4), LeafIndex(7)];
    assert_eq!(
        added_members(&applied, &places),
        vec![(b"a".to_vec(), LeafIndex(4)), (b"b".to_vec(), LeafIndex(7))]
    );
    assert_eq!(added_members(&vec![add(b"a")], &places), vec![(b"a".to_vec(), LeafIndex(4))]);
}

#[test]
fn the_tree_goes_where_the_options_say() {
    let plan = plan_group_info(&OPTIONS);
    assert!(!plan.external_group_info && !plan.tree_in_external);
    assert!(plan.tree_in_welcome && !plan.tree_out_of_band);

    let open = CommitOptions { allow_external_commit: true, ..OPTIONS };
    assert!(plan_group_info(&open).external_group_info);
    assert!(plan_group_info(&open).tree_in_external);

    let both = CommitOptions { always_out_of_band_ratchet_tree: true, ..open };
    let plan = plan_group_info(&both);
    assert!(plan.external_group_info && !plan.tree_in_external);
    assert!(plan.tree_in_welcome && plan.tree_out_of_band);

    let bare = CommitOptions { ratchet_tree_extension: false, ..open };
    let plan = plan_group_info(&bare);
    assert!(!plan.tree_in_external && !plan.tree_in_welcome && plan.tree_out_of_band);
}

#[test]
fn welcome_messages_are_single_or_one_each() {
    let secrets = || {
        vec![EncryptedGroupSecrets { bytes: vec![1] }, EncryptedGroupSecrets { bytes: vec![2] }]
    };
    let info = b"info".to_vec();
    let count = |single: bool, n: usize| {
        let some: Vec<_> = secrets().into_iter().take(n).collect();
        make_welcome_messages(single, 1, 3, some, &info)
    };
    assert!(count(true, 0).is_empty());
    assert!(count(false, 0).is_empty());
    assert_eq!(count(true, 2).len(), 1);
    let each = count(false, 2);
    assert_eq!(each.len(), 2);
    for (i, message) in each.iter().enumerate() {
        assert_eq!(message.version, 1);
        match &message.payload {
            MlsMessagePayload::Welcome(welcome) => {
                assert_eq!(welcome.cipher_suite, 3);
                assert_eq!(welcome.secrets, vec![secrets().remove(i)]);
                assert_eq!(welcome.encrypted_group_info, info);
            }
            _ => panic!("not a welcome message"),
        }
    }
    match &count(true, 2)[0].payload {
        MlsMessagePayload::Welcome(welcome) => assert_eq!(welcome.secrets, secrets()),
        _ => panic!("not a welcome message"),
    }
}

#[test]
fn a_group_info_is_made_unsigned() {
    let info = unsigned_group_info(
        &b"context".to_vec(),
        ExtensionList { bytes: vec![1] },
        &b"tag".to_vec(),
        LeafIndex(4),
    );
    assert_eq!(info.group_context, b"context");
    assert_eq!(info.extensions.bytes, vec![1]);
    assert_eq!(info.confirmation_tag, b"tag");
    assert_eq!(info.signer, LeafIndex(4));
    assert!(info.signature.is_empty());
}

#[test]
fn the_first_reinitialization_ends_the_group() {
    let (description, pending) = describe_commit(
        Sender::NewMemberCommit,
        b"data".to_vec(),
        LeafIndex(5),
        &vec![add(b"a"), reinit(b"first"), reinit(b"second")],
    );
    assert!(description.is_external);
    assert_eq!(description.authenticated_data, b"data");
    assert_eq!(description.committer, 5);
    let first = ReInitProposal { parameters: b"first".to_vec() };
    assert_eq!(description.effect, CommitEffect::ReInit(first.clone()));
    assert_eq!(pending, Some(first));

    let (description, pending) =
        describe_commit(Sender::Member(2), vec![], LeafIndex(2), &vec![add(b"a")]);
    assert!(!description.is_external);
    assert_eq!(description.effect, CommitEffect::NewEpoch);
    assert_eq!(pending, None);
}
