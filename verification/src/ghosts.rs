//! Quarantine of inactive members.
//!
//! With each commit, a member that has not renewed its key for long goes into
//! quarantine and becomes a ghost, a ghost whose key is old gets a new one, and a ghost
//! that stayed in quarantine for too long is removed.

use crate::crypto::{CipherSuiteProvider, CryptoError, HpkePublicKey, HpkeSecretKey};
use crate::error::MlsError;
use crate::leaf::{LeafIndex, LeafNode, LeafNodeView};
use crate::proposal::{Proposal, RemoveProposal};
use vstd::prelude::*;

verus! {

/// After how many epochs something happens to a leaf.
#[derive(Clone, Copy, Debug, PartialEq, Eq, Structural)]
pub struct QuarantineDelays {
    /// An active leaf with a key of this age goes into quarantine.
    pub inactivity: u64,
    /// A ghost with a key of this age gets a new one.
    pub ghost_key_update: u64,
    /// A ghost that has been in quarantine for this long is removed.
    pub delete_from_quarantine: u64,
}

/// Why a leaf gets a ghost key.
#[derive(Clone, Copy, Debug, PartialEq, Eq, Structural)]
pub enum GhostKeyReason {
    NewQuarantine,
    Rotation,
}

/// What a commit does to a leaf of another member.
#[derive(Clone, Copy, Debug, PartialEq, Eq, Structural)]
pub enum GhostAction {
    Keep,
    Remove,
    Renew(GhostKeyReason),
}

/// The seed of a ghost key that is to be shared among the members.
#[derive(Clone, Debug, PartialEq, Eq)]
pub struct PendingGhostKeyDerivation {
    pub leaf_index: LeafIndex,
    pub epoch: u64,
    pub seed: Vec<u8>,
    pub reason: GhostKeyReason,
}

/// A leaf that takes the place of the one at `leaf_index`.
#[derive(Clone, Debug, PartialEq, Eq)]
pub struct GhostLeafUpdate {
    pub leaf_index: LeafIndex,
    pub leaf_node: LeafNode,
}

/// The number of epochs from `since` to `next_epoch`, or 0 if `since` is later.
pub open spec fn age(next_epoch: u64, since: u64) -> int {
    if next_epoch >= since {
        next_epoch - since
    } else {
        0
    }
}

/// What the commit that starts `next_epoch` does to a leaf.
pub open spec fn action_on(
    leaf: LeafNodeView,
    next_epoch: u64,
    delays: QuarantineDelays,
) -> GhostAction {
    if leaf.is_ghost() {
        if age(next_epoch, leaf.equar) >= delays.delete_from_quarantine {
            GhostAction::Remove
        } else if age(next_epoch, leaf.epk) >= delays.ghost_key_update {
            GhostAction::Renew(GhostKeyReason::Rotation)
        } else {
            GhostAction::Keep
        }
    } else if age(next_epoch, leaf.epk) >= delays.inactivity {
        GhostAction::Renew(GhostKeyReason::NewQuarantine)
    } else {
        GhostAction::Keep
    }
}

/// The leaf with a ghost key that is new in the given epoch.
pub open spec fn renewed(
    leaf: LeafNodeView,
    reason: GhostKeyReason,
    public_key: Seq<u8>,
    epoch: u64,
) -> LeafNodeView {
    match reason {
        GhostKeyReason::NewQuarantine => leaf.with_key(public_key).quarantined(epoch),
        GhostKeyReason::Rotation => leaf.with_key(public_key).refreshed(epoch),
    }
}

/// What the commit that starts `next_epoch` does to a leaf.
pub fn ghost_action(leaf: &LeafNode, next_epoch: u64, delays: &QuarantineDelays) -> (res:
    GhostAction)
    ensures
        res == action_on(leaf@, next_epoch, *delays),
{
    let is_ghost: bool = leaf.is_ghost();
    if is_ghost && next_epoch.saturating_sub(leaf.equar) >= delays.delete_from_quarantine {
        return GhostAction::Remove;
    }
    if !is_ghost && next_epoch.saturating_sub(leaf.epk) >= delays.inactivity {
        return GhostAction::Renew(GhostKeyReason::NewQuarantine);
    }
    if is_ghost && next_epoch.saturating_sub(leaf.epk) >= delays.ghost_key_update {
        return GhostAction::Renew(GhostKeyReason::Rotation);
    }
    GhostAction::Keep
}

/// The leaf with a ghost key that is new in the given epoch.
pub fn renew_leaf(
    leaf: &LeafNode,
    reason: GhostKeyReason,
    public_key: HpkePublicKey,
    epoch: u64,
) -> (res: LeafNode)
    ensures
        res@ == renewed(leaf@, reason, public_key@, epoch),
{
    let mut new_leaf: LeafNode = leaf.clone();
    new_leaf.public_key = public_key;
    match reason {
        GhostKeyReason::NewQuarantine => new_leaf.mark_as_ghost(epoch),
        GhostKeyReason::Rotation => new_leaf.refresh_ghost_key(epoch),
    }
    new_leaf
}

/// Whether the provider drew `seed`, of the size that it asks for.
pub open spec fn is_drawn<P: CipherSuiteProvider>(provider: &P, seed: Seq<u8>) -> bool {
    exists|size: usize, drawn: Vec<u8>|
        {
            &&& call_ensures(P::kdf_extract_size, (provider,), size)
            &&& #[trigger] call_ensures(P::random_bytes_vec, (provider, size), Ok(drawn))
            &&& drawn@ == seed
        }
}

/// Whether the provider derived `public_key` from `seed`.
pub open spec fn is_derived<P: CipherSuiteProvider>(
    provider: &P,
    seed: Seq<u8>,
    public_key: Seq<u8>,
) -> bool {
    exists|ikm: &[u8], sk: HpkeSecretKey, pk: HpkePublicKey|
        {
            &&& #[trigger] call_ensures(P::kem_derive, (provider, ikm), Ok((sk, pk)))
            &&& ikm@ == seed
            &&& pk@ == public_key
        }
}

/// Whether the provider drew `seed` and derived `public_key` from it.
pub open spec fn is_ghost_key<P: CipherSuiteProvider>(
    provider: &P,
    seed: Seq<u8>,
    public_key: Seq<u8>,
) -> bool {
    is_drawn(provider, seed) && is_derived(provider, seed, public_key)
}

/// Whether the provider failed, with `e`, to draw a seed of the size that it asks for.
pub open spec fn drawing_fails<P: CipherSuiteProvider>(provider: &P, e: CryptoError) -> bool {
    exists|size: usize|
        {
            &&& call_ensures(P::kdf_extract_size, (provider,), size)
            &&& #[trigger] call_ensures(P::random_bytes_vec, (provider, size), Err(e))
        }
}

/// Whether the provider failed, with `e`, to derive a key pair from a seed that it drew.
pub open spec fn deriving_fails<P: CipherSuiteProvider>(provider: &P, e: CryptoError) -> bool {
    exists|ikm: &[u8]|
        {
            &&& #[trigger] call_ensures(P::kem_derive, (provider, ikm), Err(e))
            &&& is_drawn(provider, ikm@)
        }
}

/// A seed that the provider draws, and the public key that belongs to it.
pub fn draw_ghost_key<P: CipherSuiteProvider>(provider: &P) -> (res: Result<
    (Vec<u8>, HpkePublicKey),
    MlsError,
>)
    ensures
        match res {
            Ok((seed, public_key)) => is_ghost_key(provider, seed@, public_key@),
            Err(error) => error matches MlsError::CryptoProviderError(e) && (drawing_fails(
                provider,
                e,
            ) || deriving_fails(provider, e)),
        },
{
    let size: usize = provider.kdf_extract_size();
    match provider.random_bytes_vec(size) {
        Err(e) => {
            assert(call_ensures(P::random_bytes_vec, (provider, size), Err(e)));
            Err(MlsError::CryptoProviderError(e))
        },
        Ok(seed) => {
            assert(call_ensures(P::random_bytes_vec, (provider, size), Ok(seed)));
            let ikm: &[u8] = seed.as_slice();
            match provider.kem_derive(ikm) {
                Err(e) => {
                    assert(call_ensures(P::kem_derive, (provider, ikm), Err(e)));
                    assert(is_drawn(provider, ikm@));
                    Err(MlsError::CryptoProviderError(e))
                },
                Ok((sk, public_key)) => {
                    assert(call_ensures(P::kem_derive, (provider, ikm), Ok((sk, public_key))));
                    Ok((seed, public_key))
                },
            }
        },
    }
}

/// The leaves of a tree, by their contents.
pub open spec fn leaf_views(leaves: Seq<(LeafIndex, LeafNode)>) -> Seq<(LeafIndex, LeafNodeView)> {
    Seq::new(leaves.len(), |i: int| (leaves[i].0, leaves[i].1@))
}

/// The proposals to remove the leaves that have been in quarantine for too long.
pub open spec fn removals(
    leaves: Seq<(LeafIndex, LeafNodeView)>,
    next_epoch: u64,
    delays: QuarantineDelays,
) -> Seq<Proposal>
    decreases leaves.len(),
{
    if leaves.len() == 0 {
        Seq::empty()
    } else {
        let earlier = removals(leaves.drop_last(), next_epoch, delays);
        if action_on(leaves.last().1, next_epoch, delays) is Remove {
            earlier.push(Proposal::Remove(RemoveProposal { to_remove: leaves.last().0 }))
        } else {
            earlier
        }
    }
}

/// The leaves that get a ghost key, each with the reason.
pub open spec fn renewals(
    leaves: Seq<(LeafIndex, LeafNodeView)>,
    next_epoch: u64,
    delays: QuarantineDelays,
) -> Seq<(LeafIndex, LeafNodeView, GhostKeyReason)>
    decreases leaves.len(),
{
    if leaves.len() == 0 {
        Seq::empty()
    } else {
        let earlier = renewals(leaves.drop_last(), next_epoch, delays);
        match action_on(leaves.last().1, next_epoch, delays) {
            GhostAction::Renew(reason) => earlier.push(
                (leaves.last().0, leaves.last().1, reason),
            ),
            _ => earlier,
        }
    }
}

/// Whether a seed and a leaf were made for the given renewal.
pub open spec fn is_renewal<P: CipherSuiteProvider>(
    provider: &P,
    renewal: (LeafIndex, LeafNodeView, GhostKeyReason),
    epoch: u64,
    pending: PendingGhostKeyDerivation,
    update: GhostLeafUpdate,
) -> bool {
    let key = update.leaf_node@.public_key;
    &&& pending.leaf_index == renewal.0
    &&& pending.epoch == epoch
    &&& pending.reason == renewal.2
    &&& is_ghost_key(provider, pending.seed@, key)
    &&& update.leaf_index == renewal.0
    &&& update.leaf_node@ == renewed(renewal.1, renewal.2, key, epoch)
}

/// Whether seeds and leaves were made for the given renewals, one of each, in order.
pub open spec fn are_renewals<P: CipherSuiteProvider>(
    provider: &P,
    renewals: Seq<(LeafIndex, LeafNodeView, GhostKeyReason)>,
    epoch: u64,
    pending: Seq<PendingGhostKeyDerivation>,
    updates: Seq<GhostLeafUpdate>,
) -> bool {
    &&& pending.len() == renewals.len()
    &&& updates.len() == renewals.len()
    &&& forall|k: int|
        0 <= k < renewals.len() ==> is_renewal(
            provider,
            #[trigger] renewals[k],
            epoch,
            pending[k],
            updates[k],
        )
}

/// Whether the provider failed with `e` at leaf `at`, after the leaves before it were done.
pub open spec fn stopped_at<P: CipherSuiteProvider>(
    provider: &P,
    leaves: Seq<(LeafIndex, LeafNodeView)>,
    at: int,
    next_epoch: u64,
    delays: QuarantineDelays,
    proposed: Seq<Proposal>,
    pending: Seq<PendingGhostKeyDerivation>,
    e: CryptoError,
) -> bool {
    &&& 0 <= at < leaves.len()
    &&& action_on(leaves[at].1, next_epoch, delays) is Renew
    &&& drawing_fails(provider, e) || deriving_fails(provider, e)
    &&& proposed == removals(leaves.take(at), next_epoch, delays)
    &&& exists|updates: Seq<GhostLeafUpdate>| #[trigger]
        are_renewals(
            provider,
            renewals(leaves.take(at), next_epoch, delays),
            next_epoch,
            pending,
            updates,
        )
}

/// Decides on each leaf of the tree, in order, in the commit that starts `next_epoch`:
/// adds proposals to remove, draws seeds for ghost keys, and returns the leaves that
/// take the place of those that get one.
///
/// A seed is drawn for each leaf that gets a key. The contract says of each that the
/// provider drew it, and that the leaf's key is derived from it. It does not say that each
/// leaf has a draw of its own: two draws of a provider at random may give the same bytes, so
/// the values do not tell one draw from two.
pub fn update_ghost_members<P: CipherSuiteProvider>(
    leaves: &Vec<(LeafIndex, LeafNode)>,
    provider: &P,
    delays: &QuarantineDelays,
    proposals: &mut Vec<Proposal>,
    pending_ghost_keys: &mut Vec<PendingGhostKeyDerivation>,
    next_epoch: u64,
) -> (res: Result<Vec<GhostLeafUpdate>, MlsError>)
    ensures
        old(proposals)@.is_prefix_of(final(proposals)@),
        old(pending_ghost_keys)@.is_prefix_of(final(pending_ghost_keys)@),
        ({
            let proposed = final(proposals)@.skip(old(proposals)@.len() as int);
            let pending = final(pending_ghost_keys)@.skip(old(pending_ghost_keys)@.len() as int);
            let views = leaf_views(leaves@);
            match res {
                Ok(updates) => {
                    &&& proposed == removals(views, next_epoch, *delays)
                    &&& are_renewals(
                        provider,
                        renewals(views, next_epoch, *delays),
                        next_epoch,
                        pending,
                        updates@,
                    )
                },
                Err(error) => {
                    &&& error matches MlsError::CryptoProviderError(e)
                    &&& exists|at: int| #[trigger]
                        stopped_at(provider, views, at, next_epoch, *delays, proposed, pending, e)
                },
            }
        }),
{
    let ghost views = leaf_views(leaves@);
    let ghost proposals_before = proposals@;
    let ghost pending_before = pending_ghost_keys@;
    let mut updates: Vec<GhostLeafUpdate> = Vec::new();
    let n: usize = leaves.len();
    let mut i: usize = 0;
    proof {
        assert(proposals@.skip(proposals_before.len() as int) =~= Seq::empty());
        assert(pending_ghost_keys@.skip(pending_before.len() as int) =~= Seq::empty());
        assert(views.take(0) =~= Seq::empty());
        assert(removals(views.take(0), next_epoch, *delays) =~= Seq::empty());
        assert(renewals(views.take(0), next_epoch, *delays) =~= Seq::empty());
    }
    while i < n
        invariant
            0 <= i <= n,
            n == leaves@.len(),
            views == leaf_views(leaves@),
            proposals_before == old(proposals)@,
            pending_before == old(pending_ghost_keys)@,
            proposals_before.is_prefix_of(proposals@),
            pending_before.is_prefix_of(pending_ghost_keys@),
            proposals@.skip(proposals_before.len() as int) == removals(
                views.take(i as int),
                next_epoch,
                *delays,
            ),
            are_renewals(
                provider,
                renewals(views.take(i as int), next_epoch, *delays),
                next_epoch,
                pending_ghost_keys@.skip(pending_before.len() as int),
                updates@,
            ),
        decreases n - i,
    {
        let ghost done = views.take(i as int);
        let ghost next = views.take(i + 1);
        let ghost proposed = proposals@.skip(proposals_before.len() as int);
        let ghost pending = pending_ghost_keys@.skip(pending_before.len() as int);
        assert(next.drop_last() =~= done);
        assert(next.last() == views[i as int]);
        let leaf_index: LeafIndex = leaves[i].0;
        let leaf: &LeafNode = &leaves[i].1;
        match ghost_action(leaf, next_epoch, delays) {
            GhostAction::Keep => {},
            GhostAction::Remove => {
                proposals.push(Proposal::Remove(RemoveProposal { to_remove: leaf_index }));
                assert(proposals@.skip(proposals_before.len() as int) =~= proposed.push(
                    proposals@.last(),
                ));
            },
            GhostAction::Renew(reason) => {
                let (seed, public_key) = match draw_ghost_key(provider) {
                    Ok(key) => key,
                    Err(error) => {
                        assert(stopped_at(
                            provider,
                            views,
                            i as int,
                            next_epoch,
                            *delays,
                            proposed,
                            pending,
                            error->CryptoProviderError_0,
                        ));
                        return Err(error);
                    },
                };
                let leaf_node: LeafNode = renew_leaf(leaf, reason, public_key, next_epoch);
                let ghost before = updates@;
                pending_ghost_keys.push(
                    PendingGhostKeyDerivation { leaf_index, epoch: next_epoch, seed, reason },
                );
                updates.push(GhostLeafUpdate { leaf_index, leaf_node });
                proof {
                    let r = renewals(next, next_epoch, *delays);
                    let added = pending_ghost_keys@.skip(pending_before.len() as int);
                    assert(added =~= pending.push(pending_ghost_keys@.last()));
                    assert(r == renewals(done, next_epoch, *delays).push((leaf_index, leaf@, reason)));
                    assert forall|k: int| 0 <= k < r.len() implies is_renewal(
                        provider,
                        #[trigger] r[k],
                        next_epoch,
                        added[k],
                        updates@[k],
                    ) by {
                        if k < r.len() - 1 {
                            assert(r[k] == renewals(done, next_epoch, *delays)[k]);
                        }
                    }
                }
            },
        }
        i += 1;
    }
    assert(views.take(n as int) =~= views);
    Ok(updates)
}

/// What happened to a leaf does not happen to it again in the same epoch, unless the
/// delay is 0.
pub proof fn law_renewed_leaf_is_kept(
    leaf: LeafNodeView,
    reason: GhostKeyReason,
    public_key: Seq<u8>,
    epoch: u64,
    delays: QuarantineDelays,
)
    requires
        epoch > 0,
        delays.ghost_key_update > 0,
        delays.delete_from_quarantine > 0,
        action_on(leaf, epoch, delays) == GhostAction::Renew(reason),
    ensures
        renewed(leaf, reason, public_key, epoch).is_ghost(),
        action_on(renewed(leaf, reason, public_key, epoch), epoch, delays) is Keep,
{
}

/// A member goes into quarantine in the first epoch in which its key is as old as the
/// delay, and not before.
pub proof fn law_quarantine_starts_with_the_delay(
    leaf: LeafNodeView,
    next_epoch: u64,
    delays: QuarantineDelays,
)
    requires
        !leaf.is_ghost(),
    ensures
        action_on(leaf, next_epoch, delays) == GhostAction::Renew(GhostKeyReason::NewQuarantine)
            <==> (next_epoch >= leaf.epk + delays.inactivity || delays.inactivity == 0),
        !(action_on(leaf, next_epoch, delays) is Remove),
{
}

/// A ghost is removed in the first epoch in which it has been in quarantine for as long
/// as the delay, however recent its key is. Until then its key is renewed as often as
/// the other delay says, and the epoch of its quarantine stays.
pub proof fn law_ghost_is_removed_with_the_delay(
    leaf: LeafNodeView,
    next_epoch: u64,
    public_key: Seq<u8>,
    delays: QuarantineDelays,
)
    requires
        leaf.is_ghost(),
    ensures
        action_on(leaf, next_epoch, delays) is Remove <==> (next_epoch >= leaf.equar
            + delays.delete_from_quarantine || delays.delete_from_quarantine == 0),
        action_on(leaf, next_epoch, delays) != GhostAction::Renew(GhostKeyReason::NewQuarantine),
        renewed(leaf, GhostKeyReason::Rotation, public_key, next_epoch).equar == leaf.equar,
{
}

/// A commit makes no more changes than there are leaves: each removal and each renewal is
/// that of a leaf for which the delays ask for it.
pub proof fn law_changes_are_those_of_leaves(
    leaves: Seq<(LeafIndex, LeafNodeView)>,
    next_epoch: u64,
    delays: QuarantineDelays,
)
    ensures
        removals(leaves, next_epoch, delays).len() + renewals(leaves, next_epoch, delays).len()
            <= leaves.len(),
        forall|k: int|
            0 <= k < renewals(leaves, next_epoch, delays).len() ==> exists|i: int|
                0 <= i < leaves.len() && leaves[i].0 == (#[trigger] renewals(
                    leaves,
                    next_epoch,
                    delays,
                )[k]).0 && leaves[i].1 == renewals(leaves, next_epoch, delays)[k].1 && action_on(
                    #[trigger] leaves[i].1,
                    next_epoch,
                    delays,
                ) == GhostAction::Renew(renewals(leaves, next_epoch, delays)[k].2),
        forall|k: int|
            0 <= k < removals(leaves, next_epoch, delays).len() ==> exists|i: int|
                0 <= i < leaves.len() && (#[trigger] removals(leaves, next_epoch, delays)[k])
                    == Proposal::Remove(RemoveProposal { to_remove: leaves[i].0 }) && action_on(
                    #[trigger] leaves[i].1,
                    next_epoch,
                    delays,
                ) is Remove,
    decreases leaves.len(),
{
    if leaves.len() > 0 {
        let shorter = leaves.drop_last();
        law_changes_are_those_of_leaves(shorter, next_epoch, delays);
        let last = leaves.len() - 1;
        assert(action_on(leaves[last].1, next_epoch, delays) == action_on(
            leaves.last().1,
            next_epoch,
            delays,
        ));
        let r = renewals(leaves, next_epoch, delays);
        assert forall|k: int| 0 <= k < r.len() implies exists|i: int|
            0 <= i < leaves.len() && leaves[i].0 == (#[trigger] r[k]).0 && leaves[i].1 == r[k].1
                && action_on(#[trigger] leaves[i].1, next_epoch, delays) == GhostAction::Renew(
                r[k].2,
            ) by {
            if k < renewals(shorter, next_epoch, delays).len() {
                assert(r[k] == renewals(shorter, next_epoch, delays)[k]);
                let i = choose|i: int|
                    0 <= i < shorter.len() && shorter[i].0 == r[k].0 && shorter[i].1 == r[k].1
                        && action_on(#[trigger] shorter[i].1, next_epoch, delays)
                        == GhostAction::Renew(r[k].2);
                assert(leaves[i].1 == shorter[i].1);
            }
        }
        let p = removals(leaves, next_epoch, delays);
        assert forall|k: int| 0 <= k < p.len() implies exists|i: int|
            0 <= i < leaves.len() && (#[trigger] p[k]) == Proposal::Remove(
                RemoveProposal { to_remove: leaves[i].0 },
            ) && action_on(#[trigger] leaves[i].1, next_epoch, delays) is Remove by {
            if k < removals(shorter, next_epoch, delays).len() {
                assert(p[k] == removals(shorter, next_epoch, delays)[k]);
                let i = choose|i: int|
                    0 <= i < shorter.len() && p[k] == Proposal::Remove(
                        RemoveProposal { to_remove: shorter[i].0 },
                    ) && action_on(#[trigger] shorter[i].1, next_epoch, delays) is Remove;
                assert(leaves[i].1 == shorter[i].1);
            }
        }
    }
}

/// What happens to a leaf, by its epochs and the delays alone. A leaf with an epoch of
/// quarantine is removed once that epoch lies back as far as one delay says; until then it gets
/// a new key exactly if the epoch of its key lies back as far as another delay says, whenever
/// its quarantine began. A leaf without one goes into quarantine exactly if the epoch of its key
/// lies back as far as the third delay says. A delay of 0 is over at once.
pub proof fn law_epochs_and_delays_decide(
    leaf: LeafNode,
    next_epoch: u64,
    delays: QuarantineDelays,
)
    ensures
        leaf.equar != 0 ==> (action_on(leaf@, next_epoch, delays) is Remove <==> next_epoch
            >= leaf.equar + delays.delete_from_quarantine || delays.delete_from_quarantine == 0),
        leaf.equar != 0 && next_epoch < leaf.equar + delays.delete_from_quarantine
            && delays.delete_from_quarantine != 0 ==> (action_on(leaf@, next_epoch, delays)
            == GhostAction::Renew(GhostKeyReason::Rotation) <==> next_epoch >= leaf.epk
            + delays.ghost_key_update || delays.ghost_key_update == 0),
        leaf.equar != 0 ==> action_on(leaf@, next_epoch, delays) != GhostAction::Renew(
            GhostKeyReason::NewQuarantine,
        ),
        leaf.equar == 0 ==> (action_on(leaf@, next_epoch, delays) == GhostAction::Renew(
            GhostKeyReason::NewQuarantine,
        ) <==> next_epoch >= leaf.epk + delays.inactivity || delays.inactivity == 0),
        leaf.equar == 0 ==> !(action_on(leaf@, next_epoch, delays) is Remove) && action_on(
            leaf@,
            next_epoch,
            delays,
        ) != GhostAction::Renew(GhostKeyReason::Rotation),
{
}

/// The keys of a ghost that is not removed are renewed with the delay, however long after its
/// quarantine began: a ghost that was put into quarantine, or whose key was renewed, in some
/// epoch is next renewed in the first epoch that comes the delay later, and not before.
pub proof fn law_ghost_keys_are_rotated_with_the_delay(
    leaf: LeafNodeView,
    reason: GhostKeyReason,
    public_key: Seq<u8>,
    epoch: u64,
    next_epoch: u64,
    delays: QuarantineDelays,
)
    requires
        epoch > 0,
        leaf.equar != 0 || reason == GhostKeyReason::NewQuarantine,
        delays.delete_from_quarantine != 0,
        delays.ghost_key_update != 0,
        next_epoch < (if reason == GhostKeyReason::NewQuarantine {
            epoch
        } else {
            leaf.equar
        }) + delays.delete_from_quarantine,
    ensures
        action_on(renewed(leaf, reason, public_key, epoch), next_epoch, delays) == (if next_epoch
            >= epoch + delays.ghost_key_update {
            GhostAction::Renew(GhostKeyReason::Rotation)
        } else {
            GhostAction::Keep
        }),
{
}

/// What a new ghost key changes in a leaf. On quarantine the leaf gets the key, the epoch as
/// that of its key and of its quarantine, and loses its identity and its signature; on rotation
/// it gets the key and its epoch. The rest stays.
pub proof fn law_new_key_changes_no_more_than_it_says(
    leaf: LeafNode,
    reason: GhostKeyReason,
    public_key: HpkePublicKey,
    epoch: u64,
    res: LeafNode,
)
    requires
        res@ == renewed(leaf@, reason, public_key@, epoch),
    ensures
        res.public_key.bytes@ == public_key.bytes@,
        res.epk == epoch,
        res.capabilities.bytes@ == leaf.capabilities.bytes@,
        res.extensions.bytes@ == leaf.extensions.bytes@,
        reason == GhostKeyReason::NewQuarantine ==> res.equar == epoch && res.signing_identity
            is None && res.leaf_node_source is GhostLeaf && res.signature@ == seq![0u8],
        reason == GhostKeyReason::Rotation ==> res.equar == leaf.equar && res.signature@
            == leaf.signature@ && (res.signing_identity is Some <==> leaf.signing_identity is Some)
            && (leaf.signing_identity is Some ==> res.signing_identity->0.bytes@
            == leaf.signing_identity->0.bytes@) && (res.leaf_node_source is GhostLeaf
            <==> leaf.leaf_node_source is GhostLeaf) && (res.leaf_node_source is Update
            <==> leaf.leaf_node_source is Update) && (leaf.leaf_node_source is KeyPackage ==> (
        res.leaf_node_source is KeyPackage && res.leaf_node_source->KeyPackage_0@
            == leaf.leaf_node_source->KeyPackage_0@)) && (leaf.leaf_node_source is Commit ==> (
        res.leaf_node_source is Commit && res.leaf_node_source->Commit_0@
            == leaf.leaf_node_source->Commit_0@)),
{
    let a = res.leaf_node_source;
    let b = leaf.leaf_node_source;
    if reason == GhostKeyReason::Rotation {
        assert(a@ == b@);
    }
    assert(res@.leaf_node_source == a@);
}

/// Which leaves the proposals of a commit remove, by their places: in order, exactly those with
/// an epoch of quarantine that lies back as far as the delay says.
pub proof fn law_each_overdue_ghost_is_removed(
    leaves: Seq<(LeafIndex, LeafNode)>,
    next_epoch: u64,
    delays: QuarantineDelays,
) -> (at: Seq<int>)
    ensures
        removals(leaf_views(leaves), next_epoch, delays).len() == at.len(),
        forall|j: int, k: int| 0 <= j < k < at.len() ==> #[trigger] at[j] < #[trigger] at[k],
        forall|j: int|
            0 <= j < at.len() ==> 0 <= #[trigger] at[j] < leaves.len() && removals(
                leaf_views(leaves),
                next_epoch,
                delays,
            )[j] == Proposal::Remove(RemoveProposal { to_remove: leaves[at[j]].0 }),
        forall|i: int| #[trigger]
            at.contains(i) <==> 0 <= i < leaves.len() && leaves[i].1.equar != 0 && (next_epoch
                >= leaves[i].1.equar + delays.delete_from_quarantine
                || delays.delete_from_quarantine == 0),
    decreases leaves.len(),
{
    let all = removals(leaf_views(leaves), next_epoch, delays);
    if leaves.len() == 0 {
        let at: Seq<int> = Seq::empty();
        assert forall|i: int| !(#[trigger] at.contains(i)) by {}
        at
    } else {
        let n = leaves.len() - 1;
        let shorter = leaves.drop_last();
        assert(leaf_views(leaves).drop_last() =~= leaf_views(shorter));
        assert(leaf_views(leaves).last() == (leaves[n].0, leaves[n].1@));
        let earlier = removals(leaf_views(shorter), next_epoch, delays);
        let old_at = law_each_overdue_ghost_is_removed(shorter, next_epoch, delays);
        law_epochs_and_delays_decide(leaves[n].1, next_epoch, delays);
        let at = if action_on(leaves[n].1@, next_epoch, delays) is Remove {
            old_at.push(n)
        } else {
            old_at
        };
        lemma_places_grow(old_at, at, n);
        assert forall|i: int| #[trigger]
            at.contains(i) <==> 0 <= i < leaves.len() && leaves[i].1.equar != 0 && (next_epoch
                >= leaves[i].1.equar + delays.delete_from_quarantine
                || delays.delete_from_quarantine == 0) by {
            assert(old_at.contains(i) ==> 0 <= i < n);
            if 0 <= i < n {
                assert(shorter[i] == leaves[i]);
            }
        }
        assert forall|j: int| 0 <= j < at.len() implies 0 <= #[trigger] at[j] < leaves.len()
            && all[j] == Proposal::Remove(RemoveProposal { to_remove: leaves[at[j]].0 }) by {
            if j < old_at.len() {
                assert(at[j] == old_at[j]);
                assert(shorter[old_at[j]] == leaves[old_at[j]]);
                assert(all[j] == earlier[j]);
            }
        }
        at
    }
}

/// Places with one more at the end.
pub proof fn lemma_places_grow(old_at: Seq<int>, at: Seq<int>, last: int)
    requires
        at == old_at || at == old_at.push(last),
    ensures
        forall|i: int| #[trigger]
            at.contains(i) <==> old_at.contains(i) || (at.len() > old_at.len() && i == last),
{
    assert forall|i: int| #[trigger]
        at.contains(i) <==> old_at.contains(i) || (at.len() > old_at.len() && i == last) by {
        if at.contains(i) && at.len() > old_at.len() {
            let k = at.index_of(i);
            if k < old_at.len() {
                assert(old_at[k] == i);
            }
        }
        if at.len() > old_at.len() {
            assert(at[old_at.len() as int] == last);
            if old_at.contains(i) {
                assert(at[old_at.index_of(i)] == i);
            }
        }
    }
}

/// Which leaves get a ghost key, by their places: in order, exactly those without an epoch of
/// quarantine whose key is as old as one delay says, for the reason that they go into
/// quarantine, and those with one that are not removed and whose key is as old as the other
/// delay says, for the reason that the key is rotated.
pub proof fn law_each_leaf_with_an_old_key_is_renewed(
    leaves: Seq<(LeafIndex, LeafNode)>,
    next_epoch: u64,
    delays: QuarantineDelays,
) -> (at: Seq<int>)
    ensures
        renewals(leaf_views(leaves), next_epoch, delays).len() == at.len(),
        forall|j: int, k: int| 0 <= j < k < at.len() ==> #[trigger] at[j] < #[trigger] at[k],
        forall|j: int|
            0 <= j < at.len() ==> 0 <= #[trigger] at[j] < leaves.len() && renewals(
                leaf_views(leaves),
                next_epoch,
                delays,
            )[j] == (
                leaves[at[j]].0,
                leaves[at[j]].1@,
                if leaves[at[j]].1.equar == 0 {
                    GhostKeyReason::NewQuarantine
                } else {
                    GhostKeyReason::Rotation
                },
            ),
        forall|i: int| #[trigger]
            at.contains(i) <==> 0 <= i < leaves.len() && (if leaves[i].1.equar == 0 {
                next_epoch >= leaves[i].1.epk + delays.inactivity || delays.inactivity == 0
            } else {
                &&& next_epoch < leaves[i].1.equar + delays.delete_from_quarantine
                &&& delays.delete_from_quarantine != 0
                &&& next_epoch >= leaves[i].1.epk + delays.ghost_key_update
                    || delays.ghost_key_update == 0
            }),
    decreases leaves.len(),
{
    let all = renewals(leaf_views(leaves), next_epoch, delays);
    if leaves.len() == 0 {
        let at: Seq<int> = Seq::empty();
        assert forall|i: int| !(#[trigger] at.contains(i)) by {}
        at
    } else {
        let n = leaves.len() - 1;
        let shorter = leaves.drop_last();
        assert(leaf_views(leaves).drop_last() =~= leaf_views(shorter));
        assert(leaf_views(leaves).last() == (leaves[n].0, leaves[n].1@));
        let earlier = renewals(leaf_views(shorter), next_epoch, delays);
        let old_at = law_each_leaf_with_an_old_key_is_renewed(shorter, next_epoch, delays);
        law_epochs_and_delays_decide(leaves[n].1, next_epoch, delays);
        let at = if action_on(leaves[n].1@, next_epoch, delays) is Renew {
            old_at.push(n)
        } else {
            old_at
        };
        lemma_places_grow(old_at, at, n);
        assert forall|i: int| #[trigger]
            at.contains(i) <==> 0 <= i < leaves.len() && (if leaves[i].1.equar == 0 {
                next_epoch >= leaves[i].1.epk + delays.inactivity || delays.inactivity == 0
            } else {
                &&& next_epoch < leaves[i].1.equar + delays.delete_from_quarantine
                &&& delays.delete_from_quarantine != 0
                &&& next_epoch >= leaves[i].1.epk + delays.ghost_key_update
                    || delays.ghost_key_update == 0
            }) by {
            assert(old_at.contains(i) ==> 0 <= i < n);
            if 0 <= i < n {
                assert(shorter[i] == leaves[i]);
            }
        }
        assert forall|j: int| 0 <= j < at.len() implies 0 <= #[trigger] at[j] < leaves.len()
            && all[j] == (
            leaves[at[j]].0,
            leaves[at[j]].1@,
            if leaves[at[j]].1.equar == 0 {
                GhostKeyReason::NewQuarantine
            } else {
                GhostKeyReason::Rotation
            },
        ) by {
            if j < old_at.len() {
                assert(at[j] == old_at[j]);
                assert(shorter[old_at[j]] == leaves[old_at[j]]);
                assert(all[j] == earlier[j]);
            }
        }
        at
    }
}

/// The seed of a ghost key is one that the provider drew, of the size that the provider asks
/// for, and the key in the new leaf is the public key that the provider derived from that seed.
/// The record of the seed and the new leaf name the same leaf, the epoch and the reason.
pub proof fn law_ghost_key_belongs_to_its_seed<P: CipherSuiteProvider>(
    provider: &P,
    renewal: (LeafIndex, LeafNodeView, GhostKeyReason),
    epoch: u64,
    pending: PendingGhostKeyDerivation,
    update: GhostLeafUpdate,
) -> (call: (usize, Vec<u8>, &[u8], HpkeSecretKey, HpkePublicKey))
    requires
        is_renewal(provider, renewal, epoch, pending, update),
    ensures
        call_ensures(P::kdf_extract_size, (provider,), call.0),
        call_ensures(P::random_bytes_vec, (provider, call.0), Ok(call.1)),
        call.1@ == pending.seed@,
        call.2@ == pending.seed@,
        call_ensures(P::kem_derive, (provider, call.2), Ok((call.3, call.4))),
        update.leaf_node.public_key.bytes@ == call.4.bytes@,
        pending.leaf_index == renewal.0,
        update.leaf_index == renewal.0,
        pending.epoch == epoch,
        update.leaf_node.epk == epoch,
        pending.reason == renewal.2,
        update.leaf_node@ == renewed(renewal.1, renewal.2, update.leaf_node.public_key.bytes@, epoch),
{
    let seed = pending.seed@;
    let key = update.leaf_node@.public_key;
    let (size, drawn) = choose|size: usize, drawn: Vec<u8>|
        {
            &&& call_ensures(P::kdf_extract_size, (provider,), size)
            &&& #[trigger] call_ensures(P::random_bytes_vec, (provider, size), Ok(drawn))
            &&& drawn@ == seed
        };
    let (ikm, sk, pk) = choose|ikm: &[u8], sk: HpkeSecretKey, pk: HpkePublicKey|
        {
            &&& #[trigger] call_ensures(P::kem_derive, (provider, ikm), Ok((sk, pk)))
            &&& ikm@ == seed
            &&& pk@ == key
        };
    (size, drawn, ikm, sk, pk)
}

/// One seed and one leaf are made for each leaf that gets a ghost key, in the order of the
/// leaves.
pub proof fn law_one_seed_for_each_renewed_leaf<P: CipherSuiteProvider>(
    provider: &P,
    leaves: Seq<(LeafIndex, LeafNode)>,
    next_epoch: u64,
    delays: QuarantineDelays,
    pending: Seq<PendingGhostKeyDerivation>,
    updates: Seq<GhostLeafUpdate>,
) -> (at: Seq<int>)
    requires
        are_renewals(
            provider,
            renewals(leaf_views(leaves), next_epoch, delays),
            next_epoch,
            pending,
            updates,
        ),
    ensures
        pending.len() == at.len(),
        updates.len() == at.len(),
        forall|j: int, k: int| 0 <= j < k < at.len() ==> #[trigger] at[j] < #[trigger] at[k],
        forall|j: int|
            0 <= j < at.len() ==> 0 <= #[trigger] at[j] < leaves.len() && pending[j].leaf_index
                == leaves[at[j]].0 && updates[j].leaf_index == leaves[at[j]].0 && pending[j].epoch
                == next_epoch && updates[j].leaf_node.epk == next_epoch
                && updates[j].leaf_node.equar == (if leaves[at[j]].1.equar == 0 {
                next_epoch
            } else {
                leaves[at[j]].1.equar
            }) && is_ghost_key(provider, pending[j].seed@, updates[j].leaf_node.public_key.bytes@),
        forall|i: int| #[trigger]
            at.contains(i) <==> 0 <= i < leaves.len() && (if leaves[i].1.equar == 0 {
                next_epoch >= leaves[i].1.epk + delays.inactivity || delays.inactivity == 0
            } else {
                &&& next_epoch < leaves[i].1.equar + delays.delete_from_quarantine
                &&& delays.delete_from_quarantine != 0
                &&& next_epoch >= leaves[i].1.epk + delays.ghost_key_update
                    || delays.ghost_key_update == 0
            }),
{
    let all = renewals(leaf_views(leaves), next_epoch, delays);
    let at = law_each_leaf_with_an_old_key_is_renewed(leaves, next_epoch, delays);
    assert forall|j: int| 0 <= j < at.len() implies 0 <= #[trigger] at[j] < leaves.len()
        && pending[j].leaf_index == leaves[at[j]].0 && updates[j].leaf_index == leaves[at[j]].0
        && pending[j].epoch == next_epoch && updates[j].leaf_node.epk == next_epoch
        && updates[j].leaf_node.equar == (if leaves[at[j]].1.equar == 0 {
        next_epoch
    } else {
        leaves[at[j]].1.equar
    }) && is_ghost_key(provider, pending[j].seed@, updates[j].leaf_node.public_key.bytes@) by {
        assert(is_renewal(provider, all[j], next_epoch, pending[j], updates[j]));
    }
    at
}

/// A commit whose ghosts cannot be maintained hands on what the provider failed with, at a leaf
/// that was to get a ghost key. Until then it has proposed to remove exactly the overdue ghosts
/// before that leaf.
pub proof fn law_failure_is_that_of_the_provider<P: CipherSuiteProvider>(
    provider: &P,
    leaves: Seq<(LeafIndex, LeafNode)>,
    at: int,
    next_epoch: u64,
    delays: QuarantineDelays,
    proposed: Seq<Proposal>,
    pending: Seq<PendingGhostKeyDerivation>,
    e: CryptoError,
)
    requires
        stopped_at(
            provider,
            leaf_views(leaves),
            at,
            next_epoch,
            delays,
            proposed,
            pending,
            e,
        ),
    ensures
        0 <= at < leaves.len(),
        (exists|size: usize|
            call_ensures(P::kdf_extract_size, (provider,), size) && #[trigger] call_ensures(
                P::random_bytes_vec,
                (provider, size),
                Err(e),
            )) || (exists|ikm: &[u8], size: usize, drawn: Vec<u8>|
            call_ensures(P::kdf_extract_size, (provider,), size) && #[trigger] call_ensures(
                P::random_bytes_vec,
                (provider, size),
                Ok(drawn),
            ) && drawn@ == ikm@ && #[trigger] call_ensures(
                P::kem_derive,
                (provider, ikm),
                Err(e),
            )),
        leaves[at].1.equar == 0 ==> next_epoch >= leaves[at].1.epk + delays.inactivity
            || delays.inactivity == 0,
        leaves[at].1.equar != 0 ==> next_epoch >= leaves[at].1.epk + delays.ghost_key_update
            || delays.ghost_key_update == 0,
        proposed == removals(leaf_views(leaves.take(at)), next_epoch, delays),
        pending.len() == renewals(leaf_views(leaves.take(at)), next_epoch, delays).len(),
{
    law_epochs_and_delays_decide(leaves[at].1, next_epoch, delays);
    assert(leaf_views(leaves).take(at) =~= leaf_views(leaves.take(at)));
    assert(leaf_views(leaves)[at].1 == leaves[at].1@);
    if drawing_fails(provider, e) {
        let size = choose|size: usize|
            {
                &&& call_ensures(P::kdf_extract_size, (provider,), size)
                &&& #[trigger] call_ensures(P::random_bytes_vec, (provider, size), Err(e))
            };
        assert(call_ensures(P::random_bytes_vec, (provider, size), Err(e)));
    } else {
        let ikm = choose|ikm: &[u8]|
            {
                &&& #[trigger] call_ensures(P::kem_derive, (provider, ikm), Err(e))
                &&& is_drawn(provider, ikm@)
            };
        assert(call_ensures(P::kem_derive, (provider, ikm), Err(e)));
        let (size, drawn) = choose|size: usize, drawn: Vec<u8>|
            {
                &&& call_ensures(P::kdf_extract_size, (provider,), size)
                &&& #[trigger] call_ensures(P::random_bytes_vec, (provider, size), Ok(drawn))
                &&& drawn@ == ikm@
            };
        assert(call_ensures(P::random_bytes_vec, (provider, size), Ok(drawn)));
    }
}

} // verus!
