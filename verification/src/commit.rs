//! The decisions of a member that commits.
//!
//! A commit alternates between work that the group's owner does (resolving proposals,
//! hashing the tree, deriving and encrypting keys, signing) and decisions. The decisions
//! stand here, in the order in which they come: [`begin_commit`],
//! [`CommitStart::maintain_ghosts`], [`CommitStart::resolve`],
//! [`ProvisionalCommit::settle_index`], [`ProvisionalCommit::plan_path`],
//! [`ProvisionalCommit::into_signing`], [`plan_group_info`](crate::welcome::plan_group_info),
//! [`make_welcome_messages`](crate::welcome::make_welcome_messages) and
//! [`CommitToSign::conclude`].

use crate::bytes::copy_bytes;
use crate::commit_builder::{CommitBuilder, MlsTime, SignatureSecretKey};
use crate::crypto::CipherSuiteProvider;
use crate::error::MlsError;
use crate::ghost_sharing::{is_sharing, share_ghost_seeds, GhostSharingParams};
use crate::ghosts::{
    are_renewals, leaf_views, lemma_places_grow, removals, renewals, stopped_at, update_ghost_members,
    GhostLeafUpdate, PendingGhostKeyDerivation, QuarantineDelays,
};
use crate::leaf::{ExtensionList, LeafIndex, LeafNode, LeafNodeView, SigningIdentity};
use crate::proposal::{needs_path, path_update_required, Proposal, ReInitProposal};
use crate::tree_kem_private::{GhostShare, TreeKemPrivate};
use crate::welcome::{group_info_plan, plan_group_info, CommitOptions, GroupInfoPlan, MlsMessage};
use vstd::prelude::*;

verus! {

/// Who sends a commit.
#[derive(Clone, Copy, Debug, PartialEq, Eq, Structural)]
pub enum Sender {
    Member(u32),
    NewMemberCommit,
}

/// What a commit depends on of the group that makes it.
#[derive(Debug, PartialEq, Eq)]
pub struct GroupStatus {
    pub has_pending_commit: bool,
    pub has_pending_reinit: bool,
    pub epoch: u64,
    pub self_index: LeafIndex,
    pub signer: SignatureSecretKey,
}

/// A commit that was admitted.
#[derive(Debug, PartialEq, Eq)]
pub struct CommitStart {
    pub sender: Sender,
    pub next_epoch: u64,
    pub time: Option<MlsTime>,
    /// The key that signs in the next epoch.
    pub new_signer: SignatureSecretKey,
    pub proposals: Vec<Proposal>,
    pub authenticated_data: Vec<u8>,
    pub group_info_extensions: ExtensionList,
    pub new_signing_identity: Option<SigningIdentity>,
    pub new_leaf_node_extensions: Option<ExtensionList>,
}

/// Why the group does not admit a commit, if it does not.
pub open spec fn admission_error(status: GroupStatus) -> Option<MlsError> {
    if status.has_pending_commit {
        Some(MlsError::ExistingPendingCommit)
    } else if status.has_pending_reinit {
        Some(MlsError::GroupUsedAfterReInit)
    } else {
        None
    }
}

/// Admits a commit, and settles who sends it, when, and with which key. `now` is the
/// present time, if there is a clock.
pub fn begin_commit(
    status: &GroupStatus,
    builder: CommitBuilder,
    is_external: bool,
    now: Option<MlsTime>,
) -> (res: Result<CommitStart, MlsError>)
    requires
        admission_error(*status) is None ==> status.epoch < u64::MAX,
    ensures
        match admission_error(*status) {
            Some(e) => res == Err::<CommitStart, _>(e),
            None => {
                &&& res matches Ok(start)
                &&& start.sender == if is_external {
                    Sender::NewMemberCommit
                } else {
                    Sender::Member(status.self_index.0)
                }
                &&& start.next_epoch == status.epoch + 1
                &&& start.time == if builder.commit_time is Some {
                    builder.commit_time
                } else {
                    now
                }
                &&& start.new_signer@ == match builder.new_signer {
                    Some(signer) => signer@,
                    None => status.signer@,
                }
                &&& start.proposals == builder.proposals
                &&& start.authenticated_data == builder.authenticated_data
                &&& start.group_info_extensions == builder.group_info_extensions
                &&& start.new_signing_identity == builder.new_signing_identity
                &&& start.new_leaf_node_extensions == builder.new_leaf_node_extensions
            },
        },
{
    if status.has_pending_commit {
        return Err(MlsError::ExistingPendingCommit);
    }
    if status.has_pending_reinit {
        return Err(MlsError::GroupUsedAfterReInit);
    }
    let sender: Sender = if is_external {
        Sender::NewMemberCommit
    } else {
        Sender::Member(status.self_index.0)
    };
    let new_signer: SignatureSecretKey = match builder.new_signer {
        Some(signer) => signer,
        None => status.signer.clone(),
    };
    let time: Option<MlsTime> = match builder.commit_time {
        Some(time) => Some(time),
        None => now,
    };
    Ok(
        CommitStart {
            sender,
            next_epoch: status.epoch + 1,
            time,
            new_signer,
            proposals: builder.proposals,
            authenticated_data: builder.authenticated_data,
            group_info_extensions: builder.group_info_extensions,
            new_signing_identity: builder.new_signing_identity,
            new_leaf_node_extensions: builder.new_leaf_node_extensions,
        },
    )
}

/// What a commit does to the leaves of other members.
#[derive(Debug, PartialEq, Eq)]
pub struct GhostMaintenance {
    pub pending_ghost_keys: Vec<PendingGhostKeyDerivation>,
    pub ghost_updates: Vec<GhostLeafUpdate>,
}

impl CommitStart {
    /// Adds proposals to remove ghosts, and makes the keys of those that get a new one.
    pub fn maintain_ghosts<P: CipherSuiteProvider>(
        &mut self,
        leaves: &Vec<(LeafIndex, LeafNode)>,
        provider: &P,
        delays: &QuarantineDelays,
    ) -> (res: Result<GhostMaintenance, MlsError>)
        ensures
            old(self).proposals@.is_prefix_of(final(self).proposals@),
            *final(self) == (CommitStart { proposals: final(self).proposals, ..*old(self) }),
            ({
                let next_epoch = old(self).next_epoch;
                let views = leaf_views(leaves@);
                let proposed = final(self).proposals@.skip(old(self).proposals@.len() as int);
                match res {
                    Ok(done) => {
                        &&& proposed == removals(views, next_epoch, *delays)
                        &&& are_renewals(
                            provider,
                            renewals(views, next_epoch, *delays),
                            next_epoch,
                            done.pending_ghost_keys@,
                            done.ghost_updates@,
                        )
                    },
                    Err(error) => {
                        &&& error matches MlsError::CryptoProviderError(e)
                        &&& exists|at: int, pending: Seq<PendingGhostKeyDerivation>| #[trigger]
                            stopped_at(
                                provider,
                                views,
                                at,
                                next_epoch,
                                *delays,
                                proposed,
                                pending,
                                e,
                            )
                    },
                }
            }),
    {
        let mut pending_ghost_keys: Vec<PendingGhostKeyDerivation> = Vec::new();
        let next_epoch: u64 = self.next_epoch;
        let res: Result<Vec<GhostLeafUpdate>, MlsError> = update_ghost_members(
            leaves,
            provider,
            delays,
            &mut self.proposals,
            &mut pending_ghost_keys,
            next_epoch,
        );
        assert(pending_ghost_keys@.skip(0) =~= pending_ghost_keys@);
        match res {
            Ok(ghost_updates) => Ok(GhostMaintenance { pending_ghost_keys, ghost_updates }),
            Err(e) => Err(e),
        }
    }
}

/// The leaves of a tree, by their places, with what they hold.
pub open spec fn slots(leaves: Seq<Option<LeafNode>>) -> Seq<Option<LeafNodeView>> {
    Seq::new(
        leaves.len(),
        |i: int|
            match leaves[i] {
                Some(leaf) => Some(leaf@),
                None => None,
            },
    )
}

/// Whether there is a leaf at the given place.
pub open spec fn has_leaf(leaves: Seq<Option<LeafNodeView>>, index: LeafIndex) -> bool {
    index.0 < leaves.len() && leaves[index.0 as int] is Some
}

/// The leaves after the updates, each of which takes effect only where there is a leaf.
pub open spec fn updated(
    leaves: Seq<Option<LeafNodeView>>,
    updates: Seq<GhostLeafUpdate>,
) -> Seq<Option<LeafNodeView>>
    decreases updates.len(),
{
    if updates.len() == 0 {
        leaves
    } else {
        let earlier = updated(leaves, updates.drop_last());
        let last = updates.last();
        if has_leaf(earlier, last.leaf_index) {
            earlier.update(last.leaf_index.0 as int, Some(last.leaf_node@))
        } else {
            earlier
        }
    }
}

/// The places at which the updates take effect.
pub open spec fn touched(
    leaves: Seq<Option<LeafNodeView>>,
    updates: Seq<GhostLeafUpdate>,
) -> Seq<LeafIndex>
    decreases updates.len(),
{
    if updates.len() == 0 {
        Seq::empty()
    } else {
        let earlier = touched(leaves, updates.drop_last());
        if has_leaf(leaves, updates.last().leaf_index) {
            earlier.push(updates.last().leaf_index)
        } else {
            earlier
        }
    }
}

/// Updates neither make nor remove leaves.
proof fn lemma_updates_keep_leaves(
    leaves: Seq<Option<LeafNodeView>>,
    updates: Seq<GhostLeafUpdate>,
)
    ensures
        updated(leaves, updates).len() == leaves.len(),
        forall|i: LeafIndex| #[trigger]
            has_leaf(updated(leaves, updates), i) == has_leaf(leaves, i),
    decreases updates.len(),
{
    if updates.len() > 0 {
        let earlier = updated(leaves, updates.drop_last());
        lemma_updates_keep_leaves(leaves, updates.drop_last());
        assert forall|i: LeafIndex| #[trigger]
            has_leaf(updated(leaves, updates), i) == has_leaf(leaves, i) by {
            assert(has_leaf(earlier, i) == has_leaf(leaves, i));
        }
    }
}

/// Puts the leaves of the updates in their places, where there is a leaf, and returns those
/// places. The hashes of the tree have to be computed anew if there are any.
pub fn apply_ghost_updates(leaves: &mut Vec<Option<LeafNode>>, updates: &Vec<GhostLeafUpdate>) -> (res:
    Vec<LeafIndex>)
    ensures
        slots(final(leaves)@) == updated(slots(old(leaves)@), updates@),
        res@ == touched(slots(old(leaves)@), updates@),
{
    let ghost before = slots(leaves@);
    let mut touched_leaves: Vec<LeafIndex> = Vec::new();
    let n: usize = updates.len();
    let len: usize = leaves.len();
    let mut k: usize = 0;
    assert(updates@.take(0) =~= Seq::empty());
    while k < n
        invariant
            0 <= k <= n,
            n == updates@.len(),
            len == leaves@.len(),
            slots(leaves@) == updated(before, updates@.take(k as int)),
            touched_leaves@ == touched(before, updates@.take(k as int)),
        decreases n - k,
    {
        let ghost done = updates@.take(k as int);
        proof {
            assert(updates@.take(k + 1).drop_last() =~= done);
            assert(updates@.take(k + 1).last() == updates@[k as int]);
            lemma_updates_keep_leaves(before, done);
            assert(has_leaf(updated(before, done), updates@[k as int].leaf_index) == has_leaf(
                before,
                updates@[k as int].leaf_index,
            ));
        }
        let ghost earlier = leaves@;
        let index: LeafIndex = updates[k].leaf_index;
        let place: usize = index.0 as usize;
        if place < len && leaves[place].is_some() {
            assert(slots(earlier)[place as int] is Some);
            let leaf_node: LeafNode = updates[k].leaf_node.clone();
            leaves[place] = Some(leaf_node);
            assert(slots(leaves@) =~= slots(earlier).update(place as int, Some(leaf_node@)));
            touched_leaves.push(index);
        }
        k += 1;
    }
    assert(updates@.take(n as int) =~= updates@);
    touched_leaves
}

/// Gives a new member that commits from outside its place in the tree, both in the tree
/// that the commit leads to and in the present one.
pub fn take_external_index(
    provisional: &mut TreeKemPrivate,
    present: &mut TreeKemPrivate,
    external_init_index: Option<LeafIndex>,
) -> (res: Result<(), MlsError>)
    ensures
        match external_init_index {
            Some(index) => {
                &&& res is Ok
                &&& *final(provisional) == (TreeKemPrivate {
                    self_index: index,
                    ..*old(provisional)
                })
                &&& *final(present) == (TreeKemPrivate { self_index: index, ..*old(present) })
            },
            None => {
                &&& res == Err::<(), _>(MlsError::ExternalCommitMissingExternalInit)
                &&& *final(provisional) == *old(provisional)
                &&& *final(present) == *old(present)
            },
        },
{
    match external_init_index {
        None => Err(MlsError::ExternalCommitMissingExternalInit),
        Some(index) => {
            provisional.self_index = index;
            present.self_index = index;
            Ok(())
        },
    }
}

/// Whether a commit carries an update path: the rules or the proposals ask for it, or there
/// are ghost keys to be shared.
pub open spec fn carries_path(
    options: CommitOptions,
    applied: Seq<Proposal>,
    pending: Seq<PendingGhostKeyDerivation>,
) -> bool {
    options.path_required || needs_path(applied) || pending.len() > 0
}

/// What goes into the update path.
#[derive(Debug, PartialEq, Eq)]
pub struct PathPlan {
    /// The extensions of the committer's new leaf.
    pub leaf_extensions: ExtensionList,
    /// The shares for the members below each node of the path.
    pub ghost_shares: Vec<Vec<GhostShare>>,
}

/// The contents of the extensions of the committer's new leaf: those that were asked for,
/// else those of the leaf with which it joins from outside, else those that it has.
pub open spec fn chosen_extensions(
    requested: Option<ExtensionList>,
    external: Option<ExtensionList>,
    current: Result<ExtensionList, MlsError>,
) -> Result<Seq<u8>, MlsError> {
    match (requested, external, current) {
        (Some(extensions), _, _) => Ok(extensions@),
        (None, Some(extensions), _) => Ok(extensions@),
        (None, None, Ok(extensions)) => Ok(extensions@),
        (None, None, Err(e)) => Err(e),
    }
}

/// Decides whether the commit carries an update path, and what goes into it. `filtered`
/// says for each node of the committer's direct path whether it is filtered out, if the
/// path is known; `external_extensions` are those of the leaf with which the committer joins
/// from outside, and `current_extensions` those of its leaf in the tree.
pub fn plan_update_path(
    private: &mut TreeKemPrivate,
    options: &CommitOptions,
    params: &GhostSharingParams,
    applied: &Vec<Proposal>,
    pending: &Vec<PendingGhostKeyDerivation>,
    requested_extensions: Option<ExtensionList>,
    external_extensions: Option<ExtensionList>,
    current_extensions: Result<ExtensionList, MlsError>,
    filtered: Result<Vec<bool>, MlsError>,
) -> (res: Result<Option<PathPlan>, MlsError>)
    ensures
        ({
            let extensions = chosen_extensions(
                requested_extensions,
                external_extensions,
                current_extensions,
            );
            if !carries_path(*options, applied@, pending@) {
                res == Ok::<Option<PathPlan>, MlsError>(None) && *final(private) == *old(private)
            } else if extensions is Err {
                res == Err::<Option<PathPlan>, _>(extensions->Err_0) && *final(private) == *old(
                    private,
                )
            } else if filtered is Err {
                res == Err::<Option<PathPlan>, _>(filtered->Err_0) && *final(private) == *old(
                    private,
                )
            } else {
                &&& res matches Ok(Some(plan))
                &&& plan.leaf_extensions@ == extensions->Ok_0
                &&& is_sharing(
                    *old(private),
                    *final(private),
                    *params,
                    pending@,
                    filtered->Ok_0@,
                    plan.ghost_shares@,
                )
                &&& final(private).self_index == old(private).self_index
                &&& final(private).secret_keys == old(private).secret_keys
                &&& final(private).received_ghost_shares == old(private).received_ghost_shares
            }
        }),
{
    let perform: bool = options.path_required || path_update_required(applied) || pending.len()
        > 0;
    if !perform {
        return Ok(None);
    }
    let leaf_extensions: ExtensionList = match requested_extensions {
        Some(extensions) => extensions,
        None => match external_extensions {
            Some(extensions) => extensions,
            None => match current_extensions {
                Ok(extensions) => extensions,
                Err(e) => {
                    return Err(e);
                },
            },
        },
    };
    let filtered: Vec<bool> = match filtered {
        Ok(filtered) => filtered,
        Err(e) => {
            return Err(e);
        },
    };
    match share_ghost_seeds(private, params, pending, &filtered) {
        Ok(ghost_shares) => Ok(Some(PathPlan { leaf_extensions, ghost_shares })),
        Err(e) => Err(e),
    }
}

/// A commit that makes ghost keys carries an update path, and so does one without proposals:
/// the shares of the keys always have a way to the members.
pub proof fn law_ghost_keys_come_with_a_path(
    options: CommitOptions,
    applied: Seq<Proposal>,
    pending: Seq<PendingGhostKeyDerivation>,
)
    ensures
        pending.len() > 0 ==> carries_path(options, applied, pending),
        applied.len() == 0 ==> carries_path(options, applied, pending),
        forall|i: int|
            0 <= i < applied.len() && (#[trigger] applied[i]) is Remove ==> carries_path(
                options,
                applied,
                pending,
            ),
{
}

/// Ghost updates change the leaves that they name and no others, and where they name a leaf
/// more than once the last one stands.
pub proof fn law_ghost_updates_change_what_they_name(
    leaves: Seq<Option<LeafNodeView>>,
    updates: Seq<GhostLeafUpdate>,
    i: int,
)
    requires
        0 <= i < leaves.len(),
    ensures
        updated(leaves, updates).len() == leaves.len(),
        (forall|k: int|
            0 <= k < updates.len() ==> (#[trigger] updates[k]).leaf_index.0 != i) ==> updated(
            leaves,
            updates,
        )[i] == leaves[i],
        leaves[i] is None ==> updated(leaves, updates)[i] is None,
        forall|k: int|
            0 <= k < updates.len() && (#[trigger] updates[k]).leaf_index.0 == i && (forall|j: int|
                k < j < updates.len() ==> (#[trigger] updates[j]).leaf_index.0 != i)
                && leaves[i] is Some ==> updated(leaves, updates)[i] == Some(
                updates[k].leaf_node@,
            ),
    decreases updates.len(),
{
    lemma_updates_keep_leaves(leaves, updates);
    if updates.len() > 0 {
        let init = updates.drop_last();
        law_ghost_updates_change_what_they_name(leaves, init, i);
        lemma_updates_keep_leaves(leaves, init);
        assert(has_leaf(updated(leaves, init), updates.last().leaf_index) == has_leaf(
            leaves,
            updates.last().leaf_index,
        ));
        if forall|k: int| 0 <= k < updates.len() ==> (#[trigger] updates[k]).leaf_index.0 != i {
            assert forall|k: int| 0 <= k < init.len() implies (#[trigger] init[k]).leaf_index.0
                != i by {
                assert(init[k] == updates[k]);
            }
            assert(updates[updates.len() - 1].leaf_index.0 != i);
        }
        assert forall|k: int|
            0 <= k < updates.len() && (#[trigger] updates[k]).leaf_index.0 == i && (forall|j: int|
                k < j < updates.len() ==> (#[trigger] updates[j]).leaf_index.0 != i)
                && leaves[i] is Some implies updated(leaves, updates)[i] == Some(
            updates[k].leaf_node@,
        ) by {
            if k < init.len() {
                assert(init[k] == updates[k]);
                assert forall|j: int| k < j < init.len() implies (#[trigger] init[j]).leaf_index.0
                    != i by {
                    assert(init[j] == updates[j]);
                }
                assert(updates[updates.len() - 1].leaf_index.0 != i);
            } else {
                assert(updates.last() == updates[k]);
            }
        }
    }
}

/// What a commit leads to: a new epoch, or the end of the group.
#[derive(Debug, PartialEq, Eq)]
pub enum CommitEffect {
    NewEpoch,
    ReInit(ReInitProposal),
}

/// What a commit is, for those who apply it.
#[derive(Debug, PartialEq, Eq)]
pub struct CommitMessageDescription {
    pub is_external: bool,
    pub authenticated_data: Vec<u8>,
    pub committer: u32,
    pub effect: CommitEffect,
}

/// The parameters of the first reinitialization among the proposals.
pub open spec fn first_reinit(applied: Seq<Proposal>) -> Option<Seq<u8>>
    decreases applied.len(),
{
    if applied.len() == 0 {
        None
    } else {
        match applied[0] {
            Proposal::ReInit(proposal) => Some(proposal@),
            _ => first_reinit(applied.skip(1)),
        }
    }
}

/// What a commit is: the first reinitialization, if there is one, ends the group and stays
/// pending.
pub fn describe_commit(
    sender: Sender,
    authenticated_data: Vec<u8>,
    committer: LeafIndex,
    applied: &Vec<Proposal>,
) -> (res: (CommitMessageDescription, Option<ReInitProposal>))
    ensures
        res.0.is_external == (sender is NewMemberCommit),
        res.0.authenticated_data == authenticated_data,
        res.0.committer == committer.0,
        match first_reinit(applied@) {
            None => res.0.effect is NewEpoch && res.1 is None,
            Some(parameters) => {
                &&& res.0.effect matches CommitEffect::ReInit(proposal)
                &&& proposal@ == parameters
                &&& res.1 is Some
                &&& res.1->0@ == parameters
            },
        },
{
    let is_external: bool = match sender {
        Sender::NewMemberCommit => true,
        Sender::Member(_) => false,
    };
    let n: usize = applied.len();
    let mut i: usize = 0;
    assert(applied@.skip(0) =~= applied@);
    while i < n
        invariant
            0 <= i <= n,
            n == applied@.len(),
            is_external == (sender is NewMemberCommit),
            first_reinit(applied@) == first_reinit(applied@.skip(i as int)),
        decreases n - i,
    {
        assert(applied@.skip(i as int).skip(1) =~= applied@.skip(i + 1));
        if let Proposal::ReInit(proposal) = &applied[i] {
            let description: CommitMessageDescription = CommitMessageDescription {
                is_external,
                authenticated_data,
                committer: committer.0,
                effect: CommitEffect::ReInit(proposal.clone()),
            };
            return (description, Some(proposal.clone()));
        }
        i += 1;
    }
    let description: CommitMessageDescription = CommitMessageDescription {
        is_external,
        authenticated_data,
        committer: committer.0,
        effect: CommitEffect::NewEpoch,
    };
    (description, None)
}

/// The key packages of the members that the proposals add, in order.
pub open spec fn added_key_packages(applied: Seq<Proposal>) -> Seq<Seq<u8>>
    decreases applied.len(),
{
    if applied.len() == 0 {
        Seq::empty()
    } else {
        let earlier = added_key_packages(applied.drop_last());
        match applied.last() {
            Proposal::Add(proposal) => earlier.push(proposal.key_package@),
            _ => earlier,
        }
    }
}

/// The new members, each by its key package and its place in the tree: the places are given
/// in the order of the additions.
pub fn added_members(applied: &Vec<Proposal>, indexes: &Vec<LeafIndex>) -> (res: Vec<
    (Vec<u8>, LeafIndex),
>)
    ensures
        ({
            let packages = added_key_packages(applied@);
            &&& res@.len() == if packages.len() < indexes@.len() {
                packages.len()
            } else {
                indexes@.len()
            }
            &&& forall|k: int|
                0 <= k < res@.len() ==> (#[trigger] res@[k]).0@ == packages[k] && res@[k].1
                    == indexes@[k]
        }),
{
    let n: usize = applied.len();
    let m: usize = indexes.len();
    let mut out: Vec<(Vec<u8>, LeafIndex)> = Vec::new();
    let mut i: usize = 0;
    assert(applied@.take(0) =~= Seq::empty());
    while i < n
        invariant
            0 <= i <= n,
            n == applied@.len(),
            m == indexes@.len(),
            out@.len() <= m,
            ({
                let packages = added_key_packages(applied@.take(i as int));
                &&& out@.len() == packages.len() || (out@.len() == m && m < packages.len())
                &&& forall|k: int|
                    0 <= k < out@.len() ==> (#[trigger] out@[k]).0@ == packages[k] && out@[k].1
                        == indexes@[k]
            }),
        decreases n - i,
    {
        assert(applied@.take(i + 1).drop_last() =~= applied@.take(i as int));
        assert(applied@.take(i + 1).last() == applied@[i as int]);
        if let Proposal::Add(proposal) = &applied[i] {
            let k: usize = out.len();
            if k < m {
                out.push((copy_bytes(proposal.key_package.as_slice()), indexes[k]));
            }
        }
        i += 1;
    }
    assert(applied@.take(n as int) =~= applied@);
    out
}

/// What a commit gives to its maker.
#[derive(Debug, PartialEq, Eq)]
#[non_exhaustive]
pub struct CommitOutput {
    /// The commit, for the other members.
    pub commit_message: Vec<u8>,
    /// The messages for new members. Without new members there are none.
    pub welcome_messages: Vec<MlsMessage>,
    /// The ratchet tree, to be sent on its own.
    pub ratchet_tree: Option<Vec<u8>>,
    /// A group info with which outsiders can join by their own commit.
    pub external_commit_group_info: Option<MlsMessage>,
    /// Proposals of the epoch that did not go into the commit.
    pub unused_proposals: Vec<Proposal>,
    /// Whether the commit carries an update path.
    pub contains_update_path: bool,
}

impl CommitOutput {
    /// Puts the parts together. The tree and the group info are given exactly if planned.
    pub fn assemble(
        plan: &GroupInfoPlan,
        commit_message: Vec<u8>,
        welcome_messages: Vec<MlsMessage>,
        tree: Vec<u8>,
        group_info: Option<MlsMessage>,
        unused_proposals: Vec<Proposal>,
        contains_update_path: bool,
    ) -> (res: Self)
        requires
            plan.external_group_info ==> group_info is Some,
        ensures
            res.commit_message == commit_message,
            res.welcome_messages == welcome_messages,
            res.ratchet_tree == if plan.tree_out_of_band {
                Some(tree)
            } else {
                None
            },
            res.external_commit_group_info == if plan.external_group_info {
                group_info
            } else {
                None
            },
            res.external_commit_group_info is Some <==> plan.external_group_info,
            res.unused_proposals == unused_proposals,
            res.contains_update_path == contains_update_path,
    {
        let ratchet_tree: Option<Vec<u8>> = if plan.tree_out_of_band {
            Some(tree)
        } else {
            None
        };
        let external_commit_group_info: Option<MlsMessage> = if plan.external_group_info {
            group_info
        } else {
            None
        };
        CommitOutput {
            commit_message,
            welcome_messages,
            ratchet_tree,
            external_commit_group_info,
            unused_proposals,
            contains_update_path,
        }
    }

    /// The commit, for the other members.
    pub fn commit_message(&self) -> (res: &Vec<u8>)
        ensures
            *res == self.commit_message,
    {
        &self.commit_message
    }

    /// The messages for new members.
    pub fn welcome_messages(&self) -> (res: &Vec<MlsMessage>)
        ensures
            *res == self.welcome_messages,
    {
        &self.welcome_messages
    }

    /// The ratchet tree, to be sent on its own.
    pub fn ratchet_tree(&self) -> (res: Option<&Vec<u8>>)
        ensures
            match res {
                Some(tree) => self.ratchet_tree == Some(*tree),
                None => self.ratchet_tree is None,
            },
    {
        match &self.ratchet_tree {
            Some(tree) => Some(tree),
            None => None,
        }
    }

    /// A group info with which outsiders can join by their own commit.
    pub fn external_commit_group_info(&self) -> (res: Option<&MlsMessage>)
        ensures
            match res {
                Some(info) => self.external_commit_group_info == Some(*info),
                None => self.external_commit_group_info is None,
            },
    {
        match &self.external_commit_group_info {
            Some(info) => Some(info),
            None => None,
        }
    }

    /// Proposals of the epoch that did not go into the commit.
    pub fn unused_proposals(&self) -> (res: &Vec<Proposal>)
        ensures
            *res == self.unused_proposals,
    {
        &self.unused_proposals
    }
}

/// What became of the proposals when the group resolved them.
#[derive(Debug, PartialEq, Eq)]
pub struct Resolution {
    /// The proposals that the commit applies.
    pub applied: Vec<Proposal>,
    /// The proposals of the epoch that it leaves out.
    pub unused: Vec<Proposal>,
    /// The places of the new members, in the order of their additions.
    pub added_indexes: Vec<LeafIndex>,
    /// The place of a member that joins by this commit.
    pub external_init_index: Option<LeafIndex>,
}

/// A commit whose proposals are resolved.
#[derive(Debug, PartialEq, Eq)]
pub struct ProvisionalCommit {
    pub start: CommitStart,
    pub maintenance: GhostMaintenance,
    pub resolution: Resolution,
}

/// The commit, as it is signed: proposals and path are in the form in which they are sent.
#[derive(Debug, PartialEq, Eq)]
pub struct Commit {
    pub proposals: Vec<Vec<u8>>,
    pub path: Option<Vec<u8>>,
    /// Leaves of other members that every receiver puts in place before it looks at the path.
    pub ghost_updates: Vec<GhostLeafUpdate>,
}

/// What is left to be signed, and what is kept for the end.
#[derive(Debug, PartialEq, Eq)]
pub struct CommitToSign {
    pub sender: Sender,
    pub commit: Commit,
    pub authenticated_data: Vec<u8>,
    /// The key that signs in the next epoch.
    pub new_signer: SignatureSecretKey,
    /// The extensions of the group info in welcome messages, as they were asked for.
    pub group_info_extensions: ExtensionList,
    pub applied: Vec<Proposal>,
    pub unused: Vec<Proposal>,
    /// Whether an update path was planned.
    pub contains_update_path: bool,
}

impl CommitStart {
    /// Takes over what became of the proposals, and puts the ghosts' leaves in their places
    /// in the tree that the proposals led to. Returns the places whose hashes have to be
    /// computed anew.
    pub fn resolve(
        self,
        maintenance: GhostMaintenance,
        resolution: Resolution,
        leaves: &mut Vec<Option<LeafNode>>,
    ) -> (res: (ProvisionalCommit, Vec<LeafIndex>))
        ensures
            res.0 == (ProvisionalCommit { start: self, maintenance, resolution }),
            slots(final(leaves)@) == updated(slots(old(leaves)@), maintenance.ghost_updates@),
            res.1@ == touched(slots(old(leaves)@), maintenance.ghost_updates@),
    {
        let touched_leaves: Vec<LeafIndex> = apply_ghost_updates(
            leaves,
            &maintenance.ghost_updates,
        );
        (ProvisionalCommit { start: self, maintenance, resolution }, touched_leaves)
    }
}

impl ProvisionalCommit {
    /// Gives the committer its place in the tree if it joins by this commit.
    pub fn settle_index(&self, provisional: &mut TreeKemPrivate, present: &mut TreeKemPrivate) -> (res:
        Result<(), MlsError>)
        ensures
            match (self.start.sender, self.resolution.external_init_index) {
                (Sender::Member(_), _) => {
                    &&& res is Ok
                    &&& *final(provisional) == *old(provisional)
                    &&& *final(present) == *old(present)
                },
                (Sender::NewMemberCommit, Some(index)) => {
                    &&& res is Ok
                    &&& *final(provisional) == (TreeKemPrivate {
                        self_index: index,
                        ..*old(provisional)
                    })
                    &&& *final(present) == (TreeKemPrivate { self_index: index, ..*old(present) })
                },
                (Sender::NewMemberCommit, None) => {
                    &&& res == Err::<(), _>(MlsError::ExternalCommitMissingExternalInit)
                    &&& *final(provisional) == *old(provisional)
                    &&& *final(present) == *old(present)
                },
            },
    {
        match self.start.sender {
            Sender::Member(_) => Ok(()),
            Sender::NewMemberCommit => take_external_index(
                provisional,
                present,
                self.resolution.external_init_index,
            ),
        }
    }

    /// Decides whether the commit carries an update path, and what goes into it.
    pub fn plan_path(
        &self,
        private: &mut TreeKemPrivate,
        options: &CommitOptions,
        params: &GhostSharingParams,
        external_extensions: Option<ExtensionList>,
        current_extensions: Result<ExtensionList, MlsError>,
        filtered: Result<Vec<bool>, MlsError>,
    ) -> (res: Result<Option<PathPlan>, MlsError>)
        ensures
            ({
                let pending = self.maintenance.pending_ghost_keys@;
                let wanted = chosen_extensions(
                    self.start.new_leaf_node_extensions,
                    external_extensions,
                    current_extensions,
                );
                if !carries_path(*options, self.resolution.applied@, pending) {
                    res == Ok::<Option<PathPlan>, MlsError>(None) && *final(private) == *old(
                        private,
                    )
                } else if wanted is Err {
                    res == Err::<Option<PathPlan>, _>(wanted->Err_0) && *final(private) == *old(
                        private,
                    )
                } else if filtered is Err {
                    res == Err::<Option<PathPlan>, _>(filtered->Err_0) && *final(private) == *old(
                        private,
                    )
                } else {
                    &&& res matches Ok(Some(plan))
                    &&& plan.leaf_extensions@ == wanted->Ok_0
                    &&& is_sharing(
                        *old(private),
                        *final(private),
                        *params,
                        pending,
                        filtered->Ok_0@,
                        plan.ghost_shares@,
                    )
                    &&& final(private).self_index == old(private).self_index
                    &&& final(private).secret_keys == old(private).secret_keys
                    &&& final(private).received_ghost_shares == old(private).received_ghost_shares
                }
            }),
    {
        let requested: Option<ExtensionList> = match &self.start.new_leaf_node_extensions {
            Some(extensions) => Some(extensions.clone()),
            None => None,
        };
        plan_update_path(
            private,
            options,
            params,
            &self.resolution.applied,
            &self.maintenance.pending_ghost_keys,
            requested,
            external_extensions,
            current_extensions,
            filtered,
        )
    }

    /// Puts together what is signed, with the path that was made according to the plan: there
    /// is one exactly if one was planned. The ghosts' leaves go with the commit, so that every
    /// receiver can put them in place.
    pub fn into_signing(
        self,
        plan: &Option<PathPlan>,
        proposals: Vec<Vec<u8>>,
        path: Option<Vec<u8>>,
    ) -> (res: CommitToSign)
        requires
            path is Some <==> plan is Some,
        ensures
            res == (CommitToSign {
                sender: self.start.sender,
                commit: Commit {
                    proposals,
                    path,
                    ghost_updates: self.maintenance.ghost_updates,
                },
                authenticated_data: self.start.authenticated_data,
                new_signer: self.start.new_signer,
                group_info_extensions: self.start.group_info_extensions,
                applied: self.resolution.applied,
                unused: self.resolution.unused,
                contains_update_path: plan is Some,
            }),
            res.contains_update_path == (res.commit.path is Some),
    {
        CommitToSign {
            sender: self.start.sender,
            commit: Commit { proposals, path, ghost_updates: self.maintenance.ghost_updates },
            authenticated_data: self.start.authenticated_data,
            new_signer: self.start.new_signer,
            group_info_extensions: self.start.group_info_extensions,
            applied: self.resolution.applied,
            unused: self.resolution.unused,
            contains_update_path: plan.is_some(),
        }
    }
}

/// The end of a commit: what its maker gets, and what is kept until it is applied.
#[derive(Debug, PartialEq, Eq)]
pub struct CommitConclusion {
    pub output: CommitOutput,
    pub description: CommitMessageDescription,
    pub pending_reinit: Option<ReInitProposal>,
    pub signer: SignatureSecretKey,
}

impl CommitToSign {
    /// Concludes the commit. `tree` is the exported ratchet tree, and `group_info` the one
    /// for outsiders, which is made wherever the options let them commit.
    pub fn conclude(
        self,
        options: &CommitOptions,
        committer: LeafIndex,
        commit_message: Vec<u8>,
        welcome_messages: Vec<MlsMessage>,
        tree: Vec<u8>,
        group_info: Option<MlsMessage>,
    ) -> (res: CommitConclusion)
        requires
            options.allow_external_commit ==> group_info is Some,
        ensures
            res.output.commit_message == commit_message,
            res.output.welcome_messages == welcome_messages,
            res.output.ratchet_tree == if group_info_plan(*options).tree_out_of_band {
                Some(tree)
            } else {
                None
            },
            res.output.external_commit_group_info == if options.allow_external_commit {
                group_info
            } else {
                None
            },
            res.output.external_commit_group_info is Some <==> options.allow_external_commit,
            res.output.unused_proposals == self.unused,
            res.output.contains_update_path == self.contains_update_path,
            res.description.is_external == (self.sender is NewMemberCommit),
            res.description.authenticated_data == self.authenticated_data,
            res.description.committer == committer.0,
            match first_reinit(self.applied@) {
                None => res.description.effect is NewEpoch && res.pending_reinit is None,
                Some(parameters) => {
                    &&& res.description.effect matches CommitEffect::ReInit(proposal)
                    &&& proposal@ == parameters
                    &&& res.pending_reinit is Some
                    &&& res.pending_reinit->0@ == parameters
                },
            },
            res.signer == self.new_signer,
    {
        let (description, pending_reinit) = describe_commit(
            self.sender,
            self.authenticated_data,
            committer,
            &self.applied,
        );
        let output: CommitOutput = CommitOutput::assemble(
            &plan_group_info(options),
            commit_message,
            welcome_messages,
            tree,
            group_info,
            self.unused,
            self.contains_update_path,
        );
        CommitConclusion { output, description, pending_reinit, signer: self.new_signer }
    }
}

/// A group admits a commit exactly if none is pending and it is not about to end. A pending
/// commit is named first.
pub proof fn law_pending_changes_bar_a_commit(status: GroupStatus)
    ensures
        admission_error(status) is None <==> !status.has_pending_commit
            && !status.has_pending_reinit,
        status.has_pending_commit ==> admission_error(status) == Some(
            MlsError::ExistingPendingCommit,
        ),
        status.has_pending_reinit && !status.has_pending_commit ==> admission_error(status)
            == Some(MlsError::GroupUsedAfterReInit),
{
}

/// When a commit carries an update path, by the kinds of its proposals. It does if the rules ask
/// for it, if there are ghost keys to be shared, if it has no proposals, or if one of them
/// updates or removes a leaf, lets a member join from outside, changes the extensions of the
/// group or is the application's own. If none of this holds it does not.
pub proof fn law_commits_carry_a_path_when_asked(
    options: CommitOptions,
    applied: Seq<Proposal>,
    pending: Seq<PendingGhostKeyDerivation>,
)
    ensures
        options.path_required ==> carries_path(options, applied, pending),
        pending.len() > 0 ==> carries_path(options, applied, pending),
        applied.len() == 0 ==> carries_path(options, applied, pending),
        forall|i: int|
            0 <= i < applied.len() && ((#[trigger] applied[i]) is Update || applied[i] is Remove
                || applied[i] is ExternalInit || applied[i] is GroupContextExtensions || applied[i]
                is Custom) ==> carries_path(options, applied, pending),
        !options.path_required && pending.len() == 0 && applied.len() > 0 && (forall|i: int|
            0 <= i < applied.len() ==> (#[trigger] applied[i]) is Add || applied[i] is Psk
                || applied[i] is ReInit) ==> !carries_path(options, applied, pending),
{
}

/// The committer's new leaf has the extensions that were asked for; if none were, those of the
/// leaf with which it joins from outside; if it does not, those that it has, and only then does
/// it matter whether they could be had.
pub proof fn law_extensions_are_chosen_in_turn(
    requested: Option<ExtensionList>,
    external: Option<ExtensionList>,
    current: Result<ExtensionList, MlsError>,
)
    ensures
        requested is Some ==> chosen_extensions(requested, external, current) == Ok::<_, MlsError>(
            requested->0.bytes@,
        ),
        requested is None && external is Some ==> chosen_extensions(requested, external, current)
            == Ok::<_, MlsError>(external->0.bytes@),
        requested is None && external is None && current is Ok ==> chosen_extensions(
            requested,
            external,
            current,
        ) == Ok::<_, MlsError>(current->Ok_0.bytes@),
        requested is None && external is None && current is Err ==> chosen_extensions(
            requested,
            external,
            current,
        ) == Err::<Seq<u8>, _>(current->Err_0),
{
}

/// A commit ends the group exactly if one of its proposals says so, and by the first that does.
pub proof fn law_first_reinit_ends_the_group(applied: Seq<Proposal>, i: int)
    ensures
        (forall|j: int| 0 <= j < applied.len() ==> !((#[trigger] applied[j]) is ReInit))
            <==> first_reinit(applied) is None,
        0 <= i < applied.len() && applied[i] is ReInit && (forall|j: int|
            0 <= j < i ==> !((#[trigger] applied[j]) is ReInit)) ==> first_reinit(applied) == Some(
            applied[i]->ReInit_0.parameters@,
        ),
    decreases applied.len(),
{
    if applied.len() > 0 {
        let rest = applied.skip(1);
        law_first_reinit_ends_the_group(rest, i - 1);
        if !(applied[0] is ReInit) {
            if first_reinit(rest) is None {
                assert forall|j: int| 0 <= j < applied.len() implies !((
                #[trigger] applied[j]) is ReInit) by {
                    if j > 0 {
                        assert(rest[j - 1] == applied[j]);
                    }
                }
            } else {
                let j = choose|j: int| 0 <= j < rest.len() && (#[trigger] rest[j]) is ReInit;
                assert(applied[j + 1] == rest[j]);
            }
            if 0 <= i < applied.len() && applied[i] is ReInit && (forall|j: int|
                0 <= j < i ==> !((#[trigger] applied[j]) is ReInit)) {
                assert(rest[i - 1] == applied[i]);
                assert forall|j: int| 0 <= j < i - 1 implies !((
                #[trigger] rest[j]) is ReInit) by {
                    assert(applied[j + 1] == rest[j]);
                }
            }
        } else {
            assert(applied[0] is ReInit);
        }
    }
}

/// The new members are those of the proposals that add one, by the places of the proposals: in
/// order, each by its key package, and none is left out.
pub proof fn law_each_addition_is_a_new_member(applied: Seq<Proposal>) -> (at: Seq<int>)
    ensures
        added_key_packages(applied).len() == at.len(),
        forall|j: int, k: int| 0 <= j < k < at.len() ==> #[trigger] at[j] < #[trigger] at[k],
        forall|j: int|
            0 <= j < at.len() ==> 0 <= #[trigger] at[j] < applied.len() && applied[at[j]] is Add
                && added_key_packages(applied)[j] == applied[at[j]]->Add_0.key_package@,
        forall|i: int| #[trigger]
            at.contains(i) <==> 0 <= i < applied.len() && applied[i] is Add,
    decreases applied.len(),
{
    let all = added_key_packages(applied);
    if applied.len() == 0 {
        let at: Seq<int> = Seq::empty();
        assert forall|i: int| !(#[trigger] at.contains(i)) by {}
        at
    } else {
        let n = applied.len() - 1;
        let shorter = applied.drop_last();
        let earlier = added_key_packages(shorter);
        let old_at = law_each_addition_is_a_new_member(shorter);
        let at = if applied[n] is Add {
            old_at.push(n)
        } else {
            old_at
        };
        lemma_places_grow(old_at, at, n);
        assert forall|i: int| #[trigger]
            at.contains(i) <==> 0 <= i < applied.len() && applied[i] is Add by {
            assert(old_at.contains(i) ==> 0 <= i < n);
            if 0 <= i < n {
                assert(shorter[i] == applied[i]);
            }
        }
        assert forall|j: int| 0 <= j < at.len() implies 0 <= #[trigger] at[j] < applied.len()
            && applied[at[j]] is Add && all[j] == applied[at[j]]->Add_0.key_package@ by {
            if j < old_at.len() {
                assert(at[j] == old_at[j]);
                assert(shorter[old_at[j]] == applied[old_at[j]]);
                assert(all[j] == earlier[j]);
            }
        }
        at
    }
}

/// Ghost updates take effect exactly where there is a leaf: the places that are returned are, in
/// order, those of the updates that name one.
pub proof fn law_updates_take_effect_where_there_is_a_leaf(
    leaves: Seq<Option<LeafNode>>,
    updates: Seq<GhostLeafUpdate>,
) -> (at: Seq<int>)
    ensures
        touched(slots(leaves), updates).len() == at.len(),
        forall|j: int, k: int| 0 <= j < k < at.len() ==> #[trigger] at[j] < #[trigger] at[k],
        forall|j: int|
            0 <= j < at.len() ==> 0 <= #[trigger] at[j] < updates.len() && touched(
                slots(leaves),
                updates,
            )[j] == updates[at[j]].leaf_index,
        forall|i: int| #[trigger]
            at.contains(i) <==> 0 <= i < updates.len() && updates[i].leaf_index.0 < leaves.len()
                && leaves[updates[i].leaf_index.0 as int] is Some,
    decreases updates.len(),
{
    let all = touched(slots(leaves), updates);
    if updates.len() == 0 {
        let at: Seq<int> = Seq::empty();
        assert forall|i: int| !(#[trigger] at.contains(i)) by {}
        at
    } else {
        let n = updates.len() - 1;
        let shorter = updates.drop_last();
        let earlier = touched(slots(leaves), shorter);
        let old_at = law_updates_take_effect_where_there_is_a_leaf(leaves, shorter);
        let place = updates[n].leaf_index;
        if place.0 < leaves.len() {
            assert(slots(leaves)[place.0 as int] is Some <==> leaves[place.0 as int] is Some);
        }
        let at = if has_leaf(slots(leaves), place) {
            old_at.push(n)
        } else {
            old_at
        };
        lemma_places_grow(old_at, at, n);
        assert forall|i: int| #[trigger]
            at.contains(i) <==> 0 <= i < updates.len() && updates[i].leaf_index.0 < leaves.len()
                && leaves[updates[i].leaf_index.0 as int] is Some by {
            assert(old_at.contains(i) ==> 0 <= i < n);
            if 0 <= i < n {
                assert(shorter[i] == updates[i]);
            }
        }
        assert forall|j: int| 0 <= j < at.len() implies 0 <= #[trigger] at[j] < updates.len()
            && all[j] == updates[at[j]].leaf_index by {
            if j < old_at.len() {
                assert(at[j] == old_at[j]);
                assert(shorter[old_at[j]] == updates[old_at[j]]);
                assert(all[j] == earlier[j]);
            }
        }
        at
    }
}

/// After ghost updates, the leaf at each place is the one of the last update that names it, if
/// there was a leaf; all other places are as they were.
pub proof fn law_last_update_of_a_leaf_stands(
    before: Seq<Option<LeafNode>>,
    after: Seq<Option<LeafNode>>,
    updates: Seq<GhostLeafUpdate>,
    i: int,
    k: int,
)
    requires
        slots(after) == updated(slots(before), updates),
        0 <= i < before.len(),
    ensures
        after.len() == before.len(),
        before[i] is None ==> after[i] is None,
        before[i] is Some ==> after[i] is Some,
        before[i] is Some && (forall|j: int|
            0 <= j < updates.len() ==> (#[trigger] updates[j]).leaf_index.0 != i) ==> after[i]->0@
            == before[i]->0@,
        before[i] is Some && 0 <= k < updates.len() && updates[k].leaf_index.0 == i && (forall|
            j: int,
        |
            k < j < updates.len() ==> (#[trigger] updates[j]).leaf_index.0 != i) ==> after[i]->0@
            == updates[k].leaf_node@,
{
    law_ghost_updates_change_what_they_name(slots(before), updates, i);
    lemma_updates_keep_leaves(slots(before), updates);
    assert(slots(after).len() == after.len());
    assert(slots(after)[i] is Some <==> after[i] is Some);
    assert(slots(before)[i] is Some <==> before[i] is Some);
    let place = LeafIndex(i as u32);
    if before[i] is Some && i <= u32::MAX {
        assert(has_leaf(slots(before), place));
        assert(has_leaf(updated(slots(before), updates), place));
    }
    if i > u32::MAX {
        assert forall|j: int| 0 <= j < updates.len() implies (#[trigger] updates[j]).leaf_index.0
            != i by {}
    }
}

} // verus!
