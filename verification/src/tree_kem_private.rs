//! The private part of the ratchet tree: the secret keys on a member's direct path,
//! and the shares of ghost keys that the member holds.

use crate::bytes::{copy_bytes, same_bytes};
use crate::crypto::{CipherSuiteProvider, CryptoError, HpkePublicKey, HpkeSecretKey};
use crate::error::{MlsError, SerializationCause};
use crate::leaf::LeafIndex;
use crate::secret_sharing::{
    base64_text, is_share_of, readable, recover_seed_bytes, recoverable, recovered_seed, seed_view,
    share_contents, shares_at, shares_seed, SecretSharingError, ShareBytes,
};
use vstd::arithmetic::power2::pow2;
use vstd::prelude::*;

verus! {

/// A share of a ghost key, as it comes with an update path.
#[derive(Debug, PartialEq, Eq)]
pub struct GhostShare {
    pub ghost_leaf: LeafIndex,
    pub key_epoch: u64,
    pub share_id: u8,
    pub share_value: Vec<u8>,
}

/// A share of a ghost key, with the member that holds it.
#[derive(Debug, PartialEq, Eq)]
pub struct GhostShareHolder {
    pub ghost_leaf: LeafIndex,
    pub key_epoch: u64,
    pub share_id: u8,
    pub holder_rank: u32,
    pub share_value: Vec<u8>,
}

/// The secret keys on a member's direct path, from the leaf up, and its shares.
#[derive(Clone, Debug, PartialEq, Eq)]
#[non_exhaustive]
pub struct TreeKemPrivate {
    pub self_index: LeafIndex,
    pub secret_keys: Vec<Option<HpkeSecretKey>>,
    pub received_ghost_shares: Vec<GhostShare>,
    pub ghost_share_holders: Vec<GhostShareHolder>,
}

/// The contents of a [`GhostShare`].
pub struct GhostShareView {
    pub ghost_leaf: LeafIndex,
    pub key_epoch: u64,
    pub share_id: u8,
    pub share_value: Seq<u8>,
}

/// The contents of a [`GhostShareHolder`].
pub struct GhostShareHolderView {
    pub ghost_leaf: LeafIndex,
    pub key_epoch: u64,
    pub share_id: u8,
    pub holder_rank: u32,
    pub share_value: Seq<u8>,
}

impl View for GhostShare {
    type V = GhostShareView;

    open spec fn view(&self) -> GhostShareView {
        GhostShareView {
            ghost_leaf: self.ghost_leaf,
            key_epoch: self.key_epoch,
            share_id: self.share_id,
            share_value: self.share_value@,
        }
    }
}

impl View for GhostShareHolder {
    type V = GhostShareHolderView;

    open spec fn view(&self) -> GhostShareHolderView {
        GhostShareHolderView {
            ghost_leaf: self.ghost_leaf,
            key_epoch: self.key_epoch,
            share_id: self.share_id,
            holder_rank: self.holder_rank,
            share_value: self.share_value@,
        }
    }
}

impl Clone for GhostShare {
    fn clone(&self) -> (res: Self)
        ensures
            res@ == self@,
    {
        GhostShare {
            ghost_leaf: self.ghost_leaf,
            key_epoch: self.key_epoch,
            share_id: self.share_id,
            share_value: copy_bytes(self.share_value.as_slice()),
        }
    }
}

impl Clone for GhostShareHolder {
    fn clone(&self) -> (res: Self)
        ensures
            res@ == self@,
    {
        GhostShareHolder {
            ghost_leaf: self.ghost_leaf,
            key_epoch: self.key_epoch,
            share_id: self.share_id,
            holder_rank: self.holder_rank,
            share_value: copy_bytes(self.share_value.as_slice()),
        }
    }
}

/// The contents of shares that were received.
pub open spec fn share_views(shares: Seq<GhostShare>) -> Seq<GhostShareView> {
    Seq::new(shares.len(), |i: int| shares[i]@)
}

/// The contents of shares that are held.
pub open spec fn holder_views(holders: Seq<GhostShareHolder>) -> Seq<GhostShareHolderView> {
    Seq::new(holders.len(), |i: int| holders[i]@)
}

/// The contents of secret keys.
pub open spec fn key_views(keys: Seq<Option<HpkeSecretKey>>) -> Seq<Option<Seq<u8>>> {
    Seq::new(
        keys.len(),
        |i: int|
            match keys[i] {
                Some(key) => Some(key@),
                None => None,
            },
    )
}

impl GhostShareView {
    /// The share in the hands of the given member.
    pub open spec fn held_by(self, rank: u32) -> GhostShareHolderView {
        GhostShareHolderView {
            ghost_leaf: self.ghost_leaf,
            key_epoch: self.key_epoch,
            share_id: self.share_id,
            holder_rank: rank,
            share_value: self.share_value,
        }
    }
}

impl GhostShareHolderView {
    /// Whether both are the same share of the same key in the same hands.
    pub open spec fn same_share(self, other: GhostShareHolderView) -> bool {
        &&& self.ghost_leaf == other.ghost_leaf
        &&& self.key_epoch == other.key_epoch
        &&& self.share_id == other.share_id
        &&& self.holder_rank == other.holder_rank
    }

    /// Whether the share belongs to the key that the given leaf had since the given epoch.
    pub open spec fn is_for(self, ghost_leaf: LeafIndex, key_epoch: u64) -> bool {
        self.ghost_leaf == ghost_leaf && self.key_epoch == key_epoch
    }
}

/// Whether one of `holders` is the same share as `share`.
pub open spec fn holds(holders: Seq<GhostShareHolderView>, share: GhostShareHolderView) -> bool {
    exists|i: int| 0 <= i < holders.len() && (#[trigger] holders[i]).same_share(share)
}

/// What is held after the received shares were added one by one, each unless it is held
/// already.
pub open spec fn cached(
    holders: Seq<GhostShareHolderView>,
    received: Seq<GhostShareView>,
    rank: u32,
) -> Seq<GhostShareHolderView>
    decreases received.len(),
{
    if received.len() == 0 {
        holders
    } else {
        let earlier = cached(holders, received.drop_last(), rank);
        let share = received.last().held_by(rank);
        if holds(earlier, share) {
            earlier
        } else {
            earlier.push(share)
        }
    }
}

/// The first shares of the given key that have distinct ids, at most `limit` of them.
pub open spec fn picked(
    holders: Seq<GhostShareHolderView>,
    ghost_leaf: LeafIndex,
    key_epoch: u64,
    limit: int,
) -> Seq<GhostShareHolderView>
    decreases holders.len(),
{
    if holders.len() == 0 {
        Seq::empty()
    } else {
        let earlier = picked(holders.drop_last(), ghost_leaf, key_epoch, limit);
        let share = holders.last();
        if earlier.len() >= limit || !share.is_for(ghost_leaf, key_epoch) || has_id(
            earlier,
            share.share_id,
        ) {
            earlier
        } else {
            earlier.push(share)
        }
    }
}

/// Whether one of the shares has the given id.
pub open spec fn has_id(holders: Seq<GhostShareHolderView>, id: u8) -> bool {
    exists|i: int| 0 <= i < holders.len() && (#[trigger] holders[i]).share_id == id
}

/// The bytes of the shares.
pub open spec fn values_of(holders: Seq<GhostShareHolderView>) -> Seq<Seq<u8>> {
    Seq::new(holders.len(), |i: int| holders[i].share_value)
}

impl TreeKemPrivate {
    /// The bytes of the shares from which the seed of a ghost key is recovered.
    pub open spec fn shares_for_seed(
        &self,
        ghost_leaf: LeafIndex,
        key_epoch: u64,
        threshold: u8,
    ) -> Seq<Seq<u8>> {
        values_of(
            picked(
                holder_views(self.ghost_share_holders@),
                ghost_leaf,
                key_epoch,
                threshold as int,
            ),
        )
    }

    /// What a member knows that has only the key of its own leaf.
    pub fn new_self_leaf(self_index: LeafIndex, leaf_secret: HpkeSecretKey) -> (res: Self)
        ensures
            res.self_index == self_index,
            res.secret_keys@ == seq![Some(leaf_secret)],
            res.received_ghost_shares@.len() == 0,
            res.ghost_share_holders@.len() == 0,
    {
        let mut secret_keys: Vec<Option<HpkeSecretKey>> = Vec::new();
        secret_keys.push(Some(leaf_secret));
        TreeKemPrivate {
            self_index,
            secret_keys,
            received_ghost_shares: Vec::new(),
            ghost_share_holders: Vec::new(),
        }
    }

    /// What a member knows that is about to join by its own commit.
    pub fn new_for_external() -> (res: Self)
        ensures
            res.self_index == LeafIndex(0),
            res.secret_keys@.len() == 0,
            res.received_ghost_shares@.len() == 0,
            res.ghost_share_holders@.len() == 0,
    {
        TreeKemPrivate::new(LeafIndex(0))
    }

    /// What a member knows that has no key yet.
    pub fn new(self_index: LeafIndex) -> (res: Self)
        ensures
            res.self_index == self_index,
            res.secret_keys@.len() == 0,
            res.received_ghost_shares@.len() == 0,
            res.ghost_share_holders@.len() == 0,
    {
        TreeKemPrivate {
            self_index,
            secret_keys: Vec::new(),
            received_ghost_shares: Vec::new(),
            ghost_share_holders: Vec::new(),
        }
    }

    /// Takes the shares that were received.
    pub fn take_received_ghost_shares(&mut self) -> (res: Vec<GhostShare>)
        ensures
            res@ == old(self).received_ghost_shares@,
            final(self).received_ghost_shares@.len() == 0,
            final(self).self_index == old(self).self_index,
            final(self).secret_keys == old(self).secret_keys,
            final(self).ghost_share_holders == old(self).ghost_share_holders,
    {
        let mut taken: Vec<GhostShare> = Vec::new();
        std::mem::swap(&mut taken, &mut self.received_ghost_shares);
        taken
    }

    /// Moves the shares that were received to those that are held, each unless it is held
    /// already.
    pub fn cache_received_ghost_shares(&mut self)
        ensures
            final(self).received_ghost_shares@.len() == 0,
            holder_views(final(self).ghost_share_holders@) == cached(
                holder_views(old(self).ghost_share_holders@),
                share_views(old(self).received_ghost_shares@),
                old(self).self_index.0,
            ),
            final(self).self_index == old(self).self_index,
            final(self).secret_keys == old(self).secret_keys,
    {
        let ghost before = holder_views(self.ghost_share_holders@);
        let ghost received = share_views(self.received_ghost_shares@);
        let rank: u32 = self.self_index.0;
        let newly_received: Vec<GhostShare> = self.take_received_ghost_shares();
        let n: usize = newly_received.len();
        let mut i: usize = 0;
        assert(received.take(0) =~= Seq::empty());
        while i < n
            invariant
                0 <= i <= n,
                n == newly_received@.len(),
                received == share_views(newly_received@),
                holder_views(self.ghost_share_holders@) == cached(
                    before,
                    received.take(i as int),
                    rank,
                ),
                self.received_ghost_shares@.len() == 0,
                self.self_index == old(self).self_index,
                self.secret_keys == old(self).secret_keys,
            decreases n - i,
        {
            let share: &GhostShare = &newly_received[i];
            let holder: GhostShareHolder = GhostShareHolder {
                ghost_leaf: share.ghost_leaf,
                key_epoch: share.key_epoch,
                share_id: share.share_id,
                holder_rank: rank,
                share_value: copy_bytes(share.share_value.as_slice()),
            };
            proof {
                assert(received.take(i + 1).drop_last() =~= received.take(i as int));
                assert(received.take(i + 1).last() == received[i as int]);
                assert(holder@ == received[i as int].held_by(rank));
            }
            let ghost earlier = self.ghost_share_holders@;
            if !self.is_held(&holder) {
                self.ghost_share_holders.push(holder);
                assert(holder_views(self.ghost_share_holders@) =~= holder_views(earlier).push(
                    holder@,
                ));
            }
            i += 1;
        }
        assert(received.take(n as int) =~= received);
    }

    /// Whether the same share of the same key in the same hands is held already.
    fn is_held(&self, holder: &GhostShareHolder) -> (res: bool)
        ensures
            res == holds(holder_views(self.ghost_share_holders@), holder@),
    {
        let n: usize = self.ghost_share_holders.len();
        let mut i: usize = 0;
        while i < n
            invariant
                0 <= i <= n,
                n == self.ghost_share_holders@.len(),
                forall|j: int|
                    0 <= j < i ==> !(#[trigger] holder_views(
                        self.ghost_share_holders@,
                    )[j]).same_share(holder@),
            decreases n - i,
        {
            let x: &GhostShareHolder = &self.ghost_share_holders[i];
            if x.ghost_leaf == holder.ghost_leaf && x.key_epoch == holder.key_epoch && x.share_id
                == holder.share_id && x.holder_rank == holder.holder_rank {
                assert(holder_views(self.ghost_share_holders@)[i as int].same_share(holder@));
                return true;
            }
            i += 1;
        }
        false
    }

    /// The shares that are held of the key that the given leaf had since the given epoch.
    pub fn ghost_shares_for(&self, ghost_leaf: LeafIndex, key_epoch: u64) -> (res: Vec<
        GhostShareHolder,
    >)
        ensures
            holder_views(res@) == holder_views(self.ghost_share_holders@).filter(
                |s: GhostShareHolderView| s.is_for(ghost_leaf, key_epoch),
            ),
    {
        let ghost held = holder_views(self.ghost_share_holders@);
        let ghost wanted = |s: GhostShareHolderView| s.is_for(ghost_leaf, key_epoch);
        let mut out: Vec<GhostShareHolder> = Vec::new();
        let n: usize = self.ghost_share_holders.len();
        let mut i: usize = 0;
        proof {
            reveal(Seq::filter);
            assert(holder_views(out@) =~= held.take(0).filter(wanted));
        }
        while i < n
            invariant
                0 <= i <= n,
                n == self.ghost_share_holders@.len(),
                held == holder_views(self.ghost_share_holders@),
                wanted == (|s: GhostShareHolderView| s.is_for(ghost_leaf, key_epoch)),
                holder_views(out@) == held.take(i as int).filter(wanted),
            decreases n - i,
        {
            let s: &GhostShareHolder = &self.ghost_share_holders[i];
            proof {
                reveal(Seq::filter);
                assert(held.take(i + 1).drop_last() =~= held.take(i as int));
                assert(held.take(i + 1).last() == held[i as int]);
            }
            let ghost earlier = out@;
            if s.ghost_leaf == ghost_leaf && s.key_epoch == key_epoch {
                out.push(s.clone());
                assert(holder_views(out@) =~= holder_views(earlier).push(held[i as int]));
            }
            i += 1;
        }
        assert(held.take(n as int) =~= held);
        out
    }

    /// Recovers the seed of the key that the given leaf had since the given epoch, from the
    /// first `threshold` shares with distinct ids that are held.
    pub fn try_recover_ghost_seed(
        &self,
        ghost_leaf: LeafIndex,
        key_epoch: u64,
        threshold: u8,
    ) -> (res: Result<Vec<u8>, SecretSharingError>)
        requires
            threshold <= self.shares_for_seed(ghost_leaf, key_epoch, threshold).len() ==> readable(
                self.shares_for_seed(ghost_leaf, key_epoch, threshold),
            ),
        ensures
            seed_view(res) == recovered_seed(
                threshold,
                self.shares_for_seed(ghost_leaf, key_epoch, threshold),
            ),
    {
        if threshold == 0 {
            return Err(SecretSharingError::InvalidThreshold);
        }
        let ghost held = holder_views(self.ghost_share_holders@);
        let ghost all = picked(held, ghost_leaf, key_epoch, threshold as int);
        let mut unique: Vec<ShareBytes> = Vec::new();
        let n: usize = self.ghost_share_holders.len();
        let mut i: usize = 0;
        assert(held.take(0) =~= Seq::empty());
        while i < n && unique.len() < threshold as usize
            invariant
                0 <= i <= n,
                n == self.ghost_share_holders@.len(),
                held == holder_views(self.ghost_share_holders@),
                unique@.len() <= threshold,
                is_unique(
                    unique@,
                    picked(held.take(i as int), ghost_leaf, key_epoch, threshold as int),
                ),
            decreases n - i,
        {
            let h: &GhostShareHolder = &self.ghost_share_holders[i];
            proof {
                assert(held.take(i + 1).drop_last() =~= held.take(i as int));
                assert(held.take(i + 1).last() == held[i as int]);
                lemma_has_id(
                    unique@,
                    picked(held.take(i as int), ghost_leaf, key_epoch, threshold as int),
                    h.share_id,
                );
            }
            if h.ghost_leaf == ghost_leaf && h.key_epoch == key_epoch && !contains_id(
                &unique,
                h.share_id,
            ) {
                unique.push(
                    ShareBytes { id: h.share_id, bytes: copy_bytes(h.share_value.as_slice()) },
                );
            }
            i += 1;
        }
        proof {
            lemma_picked_stays(held, ghost_leaf, key_epoch, threshold as int, i as int);
            assert(held.take(n as int) =~= held);
            assert(share_contents(unique@) =~= values_of(all));
            assert(values_of(all).take(all.len() as int) =~= values_of(all));
        }
        recover_seed_bytes(threshold, unique.as_slice())
    }

    /// Recovers the key pair that the given leaf had since the given epoch: the provider
    /// derives it from the recovered seed.
    pub fn recover_ghost_keypair<P: CipherSuiteProvider>(
        &self,
        provider: &P,
        ghost_leaf: LeafIndex,
        key_epoch: u64,
        threshold: u8,
    ) -> (res: Result<(HpkeSecretKey, HpkePublicKey), MlsError>)
        requires
            threshold <= self.shares_for_seed(ghost_leaf, key_epoch, threshold).len() ==> readable(
                self.shares_for_seed(ghost_leaf, key_epoch, threshold),
            ),
        ensures
            match recovered_seed(
                threshold,
                self.shares_for_seed(ghost_leaf, key_epoch, threshold),
            ) {
                Err(e) => res == Err::<(HpkeSecretKey, HpkePublicKey), _>(
                    MlsError::SerializationError(SerializationCause::SecretSharing(e)),
                ),
                Ok(seed) => is_derivation(provider, seed, res),
            },
    {
        match self.try_recover_ghost_seed(ghost_leaf, key_epoch, threshold) {
            Err(e) => Err(MlsError::SerializationError(SerializationCause::SecretSharing(e))),
            Ok(seed) => {
                let ikm: &[u8] = seed.as_slice();
                let outcome: Result<(HpkeSecretKey, HpkePublicKey), CryptoError> =
                    provider.kem_derive(ikm);
                assert(call_ensures(P::kem_derive, (provider, ikm), outcome));
                match outcome {
                    Ok(pair) => Ok(pair),
                    Err(e) => Err(MlsError::CryptoProviderError(e)),
                }
            },
        }
    }

    /// Sets the secret key of the member's own leaf.
    pub fn install_self_leaf_secret_key(&mut self, sk: HpkeSecretKey)
        ensures
            final(self).secret_keys@ == (if old(self).secret_keys@.len() == 0 {
                seq![Some(sk)]
            } else {
                old(self).secret_keys@.update(0, Some(sk))
            }),
            final(self).self_index == old(self).self_index,
            final(self).received_ghost_shares == old(self).received_ghost_shares,
            final(self).ghost_share_holders == old(self).ghost_share_holders,
    {
        if self.secret_keys.len() == 0 {
            self.secret_keys.push(Some(sk));
        } else {
            self.secret_keys[0] = Some(sk);
        }
    }

    /// Sets the secret key of the member's own leaf, and forgets all others on its path.
    pub fn update_leaf(&mut self, new_leaf: HpkeSecretKey)
        requires
            old(self).secret_keys@.len() > 0,
        ensures
            final(self).secret_keys@ == Seq::new(
                old(self).secret_keys@.len(),
                |i: int|
                    if i == 0 {
                        Some(new_leaf)
                    } else {
                        None
                    },
            ),
            final(self).self_index == old(self).self_index,
            final(self).received_ghost_shares == old(self).received_ghost_shares,
            final(self).ghost_share_holders == old(self).ghost_share_holders,
    {
        let n: usize = self.secret_keys.len();
        let mut secret_keys: Vec<Option<HpkeSecretKey>> = Vec::new();
        secret_keys.push(Some(new_leaf));
        let mut i: usize = 1;
        while i < n
            invariant
                1 <= i <= n,
                secret_keys@.len() == i,
                secret_keys@[0] == Some(new_leaf),
                forall|j: int| 1 <= j < i ==> (#[trigger] secret_keys@[j]) is None,
            decreases n - i,
        {
            secret_keys.push(None);
            i += 1;
        }
        self.secret_keys = secret_keys;
    }

    /// Makes room for exactly `n` secret keys: drops what is above, and adds empty places.
    fn resize_secret_keys(&mut self, n: usize)
        ensures
            key_views(final(self).secret_keys@) == resized(key_views(old(self).secret_keys@), n as nat),
            final(self).self_index == old(self).self_index,
            final(self).received_ghost_shares == old(self).received_ghost_shares,
            final(self).ghost_share_holders == old(self).ghost_share_holders,
    {
        let ghost before = self.secret_keys@;
        if self.secret_keys.len() > n {
            self.secret_keys.truncate(n);
        }
        while self.secret_keys.len() < n
            invariant
                before == old(self).secret_keys@,
                self.secret_keys@.len() <= n,
                before.len() <= self.secret_keys@.len() || self.secret_keys@.len() == n,
                forall|j: int|
                    0 <= j < self.secret_keys@.len() ==> (#[trigger] self.secret_keys@[j]) == (if j
                        < before.len() {
                        before[j]
                    } else {
                        None
                    }),
                self.self_index == old(self).self_index,
                self.received_ghost_shares == old(self).received_ghost_shares,
                self.ghost_share_holders == old(self).ghost_share_holders,
            decreases n - self.secret_keys@.len(),
        {
            self.secret_keys.push(None);
        }
        assert(key_views(self.secret_keys@) =~= resized(key_views(before), n as nat));
    }

    /// Whether the keys derived so far are too few for `update_secrets`: a node that is not
    /// filtered out has none, and every such node below it gets its key. The nodes are those
    /// from the lowest common ancestor with `signer_index` up.
    pub fn needs_more_keys(
        &self,
        signer_index: LeafIndex,
        path: &Vec<PathNode>,
        derived: &Vec<DerivedKeys>,
    ) -> (res: bool)
        requires
            self.self_index != signer_index,
            self.self_index.0 < 0x8000_0000,
            signer_index.0 < 0x8000_0000,
        ensures
            res == !supplied(path@, derived@, common_position(self.self_index, signer_index)),
    {
        let ghost from = common_position(self.self_index, signer_index);
        proof {
            lemma_distinct_leaves(self.self_index, signer_index);
        }
        let level: u32 = leaf_lca_level(2 * self.self_index.0, 2 * signer_index.0);
        let n: usize = path.len();
        let mut i: usize = (level - 2) as usize;
        let mut k: usize = 0;
        while i < n
            invariant
                0 <= from <= i,
                from == common_position(self.self_index, signer_index),
                n == path@.len(),
                k <= i,
                k == unfiltered(path@, from, i as int),
                all_match(path@, derived@, from, i as int),
                forall|j: int|
                    from <= j < i && j < n && !path@[j].filtered ==> #[trigger] unfiltered(
                        path@,
                        from,
                        j,
                    ) < derived@.len(),
            decreases n - i,
        {
            if !path[i].filtered {
                if k >= derived.len() {
                    return true;
                }
                if path_key(&path[i], &derived[k]).is_err() {
                    assert(key_at(path@, derived@, from, i as int) is Err);
                    return false;
                }
                assert(key_at(path@, derived@, from, i as int) is Ok);
                k += 1;
            }
            i += 1;
        }
        false
    }

    /// Sets the secret keys of the nodes that this member's direct path shares with the
    /// direct path of `signer_index`, from the lowest common ancestor to the root.
    ///
    /// `path` holds the nodes of the direct path, from the leaf's parent up, and `derived`
    /// what was derived from the path secret of the common ancestor for the nodes that are
    /// not filtered out, in that order. A key pair is taken only where its public key is
    /// that of the node. At the first node where something is wrong the update stops, and
    /// the keys below it stay set.
    pub fn update_secrets(
        &mut self,
        signer_index: LeafIndex,
        path: &Vec<PathNode>,
        derived: &Vec<DerivedKeys>,
    ) -> (res: Result<(), MlsError>)
        requires
            old(self).self_index != signer_index,
            old(self).self_index.0 < 0x8000_0000,
            signer_index.0 < 0x8000_0000,
            path@.len() < usize::MAX,
            supplied(path@, derived@, common_position(old(self).self_index, signer_index)),
        ensures
            ({
                let from = common_position(old(self).self_index, signer_index);
                let before = resized(key_views(old(self).secret_keys@), path@.len() + 1);
                match res {
                    Ok(_) => {
                        &&& all_match(path@, derived@, from, path@.len() as int)
                        &&& key_views(final(self).secret_keys@) == installed(
                            before,
                            path@,
                            derived@,
                            from,
                            path@.len() as int,
                        )
                    },
                    Err(e) => exists|at: int|
                        {
                            &&& from <= at < path@.len()
                            &&& !path@[at].filtered
                            &&& #[trigger] key_at(path@, derived@, from, at) == Err::<Seq<u8>, _>(e)
                            &&& all_match(path@, derived@, from, at)
                            &&& key_views(final(self).secret_keys@) == installed(
                                before,
                                path@,
                                derived@,
                                from,
                                at,
                            )
                        },
                }
            }),
            final(self).self_index == old(self).self_index,
            final(self).received_ghost_shares == old(self).received_ghost_shares,
            final(self).ghost_share_holders == old(self).ghost_share_holders,
    {
        let ghost from = common_position(self.self_index, signer_index);
        let ghost before = resized(key_views(self.secret_keys@), path@.len() + 1);
        proof {
            lemma_distinct_leaves(self.self_index, signer_index);
        }
        let level: u32 = leaf_lca_level(2 * self.self_index.0, 2 * signer_index.0);
        let lca_index: usize = (level - 2) as usize;
        let n: usize = path.len();
        self.resize_secret_keys(n + 1);
        let mut i: usize = lca_index;
        let mut k: usize = 0;
        assert(key_views(self.secret_keys@) =~= installed(before, path@, derived@, from, from));
        if lca_index >= n {
            assert(key_views(self.secret_keys@) =~= installed(
                before,
                path@,
                derived@,
                from,
                n as int,
            ));
            return Ok(());
        }
        while i < n
            invariant
                0 <= from <= i <= n,
                n == path@.len(),
                n < usize::MAX,
                k <= i,
                supplied(path@, derived@, from),
                before.len() == n + 1,
                from == common_position(old(self).self_index, signer_index),
                before == resized(key_views(old(self).secret_keys@), path@.len() + 1),
                k == unfiltered(path@, from, i as int),
                all_match(path@, derived@, from, i as int),
                key_views(self.secret_keys@) == installed(before, path@, derived@, from, i as int),
                self.self_index == old(self).self_index,
                self.received_ghost_shares == old(self).received_ghost_shares,
                self.ghost_share_holders == old(self).ghost_share_holders,
            decreases n - i,
        {
            if !path[i].filtered {
                assert(k < derived@.len());
                match path_key(&path[i], &derived[k]) {
                    Err(e) => {
                        assert(key_at(path@, derived@, from, i as int) == Err::<Seq<u8>, _>(e));
                        return Err(e);
                    },
                    Ok(secret_key) => {
                        assert(key_at(path@, derived@, from, i as int) == Ok::<_, MlsError>(
                            secret_key@,
                        ));
                        assert(key_views(self.secret_keys@).len() == n + 1);
                        let ghost earlier = self.secret_keys@;
                        self.secret_keys[i + 1] = Some(secret_key);
                        assert(key_views(self.secret_keys@) =~= key_views(earlier).update(
                            i + 1,
                            Some(secret_key@),
                        ));
                        k += 1;
                    },
                }
            }
            assert(key_views(self.secret_keys@) =~= installed(
                before,
                path@,
                derived@,
                from,
                i + 1,
            ));
            i += 1;
        }
        Ok(())
    }
}

/// Whether `res` is what the provider's derivation from `seed` comes to.
pub open spec fn is_derivation<P: CipherSuiteProvider>(
    provider: &P,
    seed: Seq<u8>,
    res: Result<(HpkeSecretKey, HpkePublicKey), MlsError>,
) -> bool {
    exists|ikm: &[u8], outcome: Result<(HpkeSecretKey, HpkePublicKey), CryptoError>|
        {
            &&& #[trigger] call_ensures(P::kem_derive, (provider, ikm), outcome)
            &&& ikm@ == seed
            &&& match outcome {
                Ok(pair) => res == Ok::<_, MlsError>(pair),
                Err(e) => res == Err::<(HpkeSecretKey, HpkePublicKey), _>(
                    MlsError::CryptoProviderError(e),
                ),
            }
        }
}

/// A node on a direct path: whether it is filtered out, and the public key that the tree
/// holds there, if the node could be looked up and is not blank.
#[derive(Debug, PartialEq, Eq)]
pub struct PathNode {
    pub filtered: bool,
    pub public_key: Result<Option<HpkePublicKey>, MlsError>,
}

/// What was derived for a node: nothing, because its path secret or its key pair could
/// not be derived, or a key pair.
#[derive(Debug, PartialEq, Eq)]
pub enum DerivedKeys {
    NoSecret(MlsError),
    NoKeyPair(MlsError),
    Pair(HpkeSecretKey, HpkePublicKey),
}

/// The height of the lowest node above both `x` and `y` in a binary tree whose nodes are
/// numbered from left to right.
pub open spec fn lca_level(x: nat, y: nat) -> nat
    decreases x + y,
{
    if x == y {
        0
    } else {
        1 + lca_level(x / 2, y / 2)
    }
}

/// The place on the direct path of `own` of the lowest node that is above `other` too.
pub open spec fn common_position(own: LeafIndex, other: LeafIndex) -> int {
    lca_level(2 * own.0 as nat, 2 * other.0 as nat) - 2
}

/// The height of the lowest node above both `x` and `y`.
pub fn leaf_lca_level(x: u32, y: u32) -> (res: u32)
    ensures
        res == lca_level(x as nat, y as nat),
        res <= 32,
{
    let mut xn: u32 = x;
    let mut yn: u32 = y;
    let mut k: u32 = 0;
    let ghost mut bound: int = 0x1_0000_0000;
    assert(bound == pow2(32)) by {
        vstd::arithmetic::power2::lemma2_to64();
    }
    while xn != yn
        invariant
            lca_level(x as nat, y as nat) == k + lca_level(xn as nat, yn as nat),
            0 <= k <= 32,
            bound == pow2((32 - k) as nat),
            xn < bound,
            yn < bound,
        decreases xn + yn,
    {
        proof {
            if k == 32 {
                vstd::arithmetic::power2::lemma2_to64();
            }
            vstd::arithmetic::power2::lemma_pow2_unfold((32 - k) as nat);
            bound = pow2((31 - k) as nat) as int;
        }
        xn = xn / 2;
        yn = yn / 2;
        k += 1;
    }
    k
}

/// The lowest node above two leaves is at least two steps up in their numbering.
proof fn lemma_distinct_leaves(a: LeafIndex, b: LeafIndex)
    requires
        a != b,
    ensures
        lca_level(2 * a.0 as nat, 2 * b.0 as nat) >= 2,
{
    let x = 2 * a.0 as nat;
    let y = 2 * b.0 as nat;
    assert(x != y);
    assert(x / 2 == a.0 as nat);
    assert(y / 2 == b.0 as nat);
    assert(lca_level(x, y) == 1 + lca_level(x / 2, y / 2));
}

/// The keys in exactly `n` places.
pub open spec fn resized(keys: Seq<Option<Seq<u8>>>, n: nat) -> Seq<Option<Seq<u8>>> {
    Seq::new(
        n,
        |i: int|
            if i < keys.len() {
                keys[i]
            } else {
                None
            },
    )
}

/// How many of the nodes from `from` on and before `to` are not filtered out.
pub open spec fn unfiltered(path: Seq<PathNode>, from: int, to: int) -> int
    decreases to - from,
{
    if to <= from {
        0
    } else {
        unfiltered(path, from, to - 1) + (if path[to - 1].filtered {
            0int
        } else {
            1int
        })
    }
}

/// The secret key that a node gets from what was derived for it, or the error.
pub open spec fn node_key(node: PathNode, derived: DerivedKeys) -> Result<Seq<u8>, MlsError> {
    match (derived, node.public_key) {
        (DerivedKeys::NoSecret(e), _) => Err(e),
        (_, Err(e)) => Err(e),
        (_, Ok(None)) => Err(MlsError::PubKeyMismatch),
        (DerivedKeys::NoKeyPair(e), _) => Err(e),
        (DerivedKeys::Pair(secret_key, public_key), Ok(Some(expected))) => if expected@
            == public_key@ {
            Ok(secret_key@)
        } else {
            Err(MlsError::PubKeyMismatch)
        },
    }
}

/// The secret key that the node at `at` gets, or the error.
pub open spec fn key_at(
    path: Seq<PathNode>,
    derived: Seq<DerivedKeys>,
    from: int,
    at: int,
) -> Result<Seq<u8>, MlsError> {
    node_key(path[at], derived[unfiltered(path, from, at)])
}

/// Whether each node from `from` on and before `to` that is not filtered out gets a key.
pub open spec fn all_match(
    path: Seq<PathNode>,
    derived: Seq<DerivedKeys>,
    from: int,
    to: int,
) -> bool {
    forall|i: int|
        from <= i < to && !path[i].filtered ==> (#[trigger] key_at(path, derived, from, i)) is Ok
}

/// Whether something was derived for each node that the update comes to.
pub open spec fn supplied(path: Seq<PathNode>, derived: Seq<DerivedKeys>, from: int) -> bool {
    forall|i: int|
        from <= i < path.len() && !path[i].filtered && all_match(path, derived, from, i)
            ==> #[trigger] unfiltered(path, from, i) < derived.len()
}

/// The secret keys after the nodes from `from` on and before `to` got theirs. The key of
/// the node at `i` on the path stands at `i + 1`, behind that of the leaf.
pub open spec fn installed(
    before: Seq<Option<Seq<u8>>>,
    path: Seq<PathNode>,
    derived: Seq<DerivedKeys>,
    from: int,
    to: int,
) -> Seq<Option<Seq<u8>>> {
    Seq::new(
        before.len(),
        |p: int|
            if from <= p - 1 < to && !path[p - 1].filtered {
                Some(key_at(path, derived, from, p - 1)->Ok_0)
            } else {
                before[p]
            },
    )
}

/// The secret key that a node gets from what was derived for it.
pub fn path_key(node: &PathNode, derived: &DerivedKeys) -> (res: Result<HpkeSecretKey, MlsError>)
    ensures
        match res {
            Ok(key) => node_key(*node, *derived) == Ok::<_, MlsError>(key@),
            Err(e) => node_key(*node, *derived) == Err::<Seq<u8>, _>(e),
        },
{
    if let DerivedKeys::NoSecret(e) = derived {
        return Err(*e);
    }
    let expected: &HpkePublicKey = match &node.public_key {
        Err(e) => {
            return Err(*e);
        },
        Ok(None) => {
            return Err(MlsError::PubKeyMismatch);
        },
        Ok(Some(expected)) => expected,
    };
    match derived {
        DerivedKeys::NoSecret(e) | DerivedKeys::NoKeyPair(e) => Err(*e),
        DerivedKeys::Pair(secret_key, public_key) => if same_bytes(
            expected.bytes.as_slice(),
            public_key.bytes.as_slice(),
        ) {
            Ok(secret_key.clone())
        } else {
            Err(MlsError::PubKeyMismatch)
        },
    }
}

/// Whether the exact shares are those with the given contents.
spec fn is_unique(unique: Seq<ShareBytes>, shares: Seq<GhostShareHolderView>) -> bool {
    &&& unique.len() == shares.len()
    &&& forall|k: int|
        0 <= k < unique.len() ==> (#[trigger] unique[k]).id == shares[k].share_id
            && unique[k].bytes@ == shares[k].share_value
}

/// Whether one of the shares has the given id.
fn contains_id(unique: &Vec<ShareBytes>, id: u8) -> (res: bool)
    ensures
        res == exists|k: int| 0 <= k < unique@.len() && (#[trigger] unique@[k]).id == id,
{
    let n: usize = unique.len();
    let mut k: usize = 0;
    while k < n
        invariant
            0 <= k <= n,
            n == unique@.len(),
            forall|j: int| 0 <= j < k ==> (#[trigger] unique@[j]).id != id,
        decreases n - k,
    {
        if unique[k].id == id {
            return true;
        }
        k += 1;
    }
    false
}

/// The exact shares have the ids that their contents have.
proof fn lemma_has_id(unique: Seq<ShareBytes>, shares: Seq<GhostShareHolderView>, id: u8)
    requires
        is_unique(unique, shares),
    ensures
        has_id(shares, id) == exists|k: int| 0 <= k < unique.len() && (#[trigger] unique[k]).id == id,
{
    if has_id(shares, id) {
        let k = choose|k: int| 0 <= k < shares.len() && (#[trigger] shares[k]).share_id == id;
        assert(unique[k].id == id);
    }
    if exists|k: int| 0 <= k < unique.len() && (#[trigger] unique[k]).id == id {
        let k = choose|k: int| 0 <= k < unique.len() && (#[trigger] unique[k]).id == id;
        assert(shares[k].share_id == id);
    }
}

/// Once there are enough shares, no more are picked.
proof fn lemma_picked_stays(
    holders: Seq<GhostShareHolderView>,
    ghost_leaf: LeafIndex,
    key_epoch: u64,
    limit: int,
    n: int,
)
    requires
        0 <= n <= holders.len(),
        n == holders.len() || picked(holders.take(n), ghost_leaf, key_epoch, limit).len() >= limit,
    ensures
        picked(holders, ghost_leaf, key_epoch, limit) == picked(
            holders.take(n),
            ghost_leaf,
            key_epoch,
            limit,
        ),
    decreases holders.len(),
{
    if n == holders.len() {
        assert(holders.take(n) =~= holders);
    } else {
        assert(holders.drop_last().take(n) =~= holders.take(n));
        lemma_picked_stays(holders.drop_last(), ghost_leaf, key_epoch, limit, n);
    }
}

/// An update of the path secrets keeps the member's leaf key, the keys below the common
/// ancestor and those of nodes that are filtered out. Every other key from the common
/// ancestor up is the one whose public key the tree holds.
pub proof fn law_update_keeps_keys_below(
    before: Seq<Option<Seq<u8>>>,
    path: Seq<PathNode>,
    derived: Seq<DerivedKeys>,
    from: int,
    p: int,
)
    requires
        0 <= from,
        before.len() == path.len() + 1,
        all_match(path, derived, from, path.len() as int),
        0 <= p < before.len(),
    ensures
        ({
            let after = installed(before, path, derived, from, path.len() as int);
            if p <= from || path[p - 1].filtered {
                after[p] == before[p]
            } else {
                &&& derived[unfiltered(path, from, p - 1)] matches DerivedKeys::Pair(sk, pk)
                &&& path[p - 1].public_key matches Ok(Some(expected))
                &&& pk@ == expected@
                &&& after[p] == Some(sk@)
            }
        }),
{
    if p > from && !path[p - 1].filtered {
        assert(key_at(path, derived, from, p - 1) is Ok);
    }
}

/// Whether no share of a key is held twice in the same hands.
pub open spec fn distinct_shares(holders: Seq<GhostShareHolderView>) -> bool {
    forall|i: int, j: int|
        0 <= i < j < holders.len() ==> !(#[trigger] holders[i]).same_share(#[trigger] holders[j])
}

/// Caching received shares keeps all that was held, in its place, and holds each received
/// share afterwards.
pub proof fn law_cache_keeps_and_adds(
    holders: Seq<GhostShareHolderView>,
    received: Seq<GhostShareView>,
    rank: u32,
)
    ensures
        holders.is_prefix_of(cached(holders, received, rank)),
        forall|i: int|
            0 <= i < received.len() ==> holds(
                cached(holders, received, rank),
                (#[trigger] received[i]).held_by(rank),
            ),
    decreases received.len(),
{
    if received.len() > 0 {
        let shorter = received.drop_last();
        law_cache_keeps_and_adds(holders, shorter, rank);
        let earlier = cached(holders, shorter, rank);
        let all = cached(holders, received, rank);
        let last = received.last().held_by(rank);
        assert(earlier.is_prefix_of(all));
        assert forall|i: int| 0 <= i < received.len() implies holds(
            all,
            (#[trigger] received[i]).held_by(rank),
        ) by {
            let share = received[i].held_by(rank);
            if i < shorter.len() {
                assert(shorter[i] == received[i]);
            }
            if holds(earlier, share) {
                let k = choose|k: int|
                    0 <= k < earlier.len() && (#[trigger] earlier[k]).same_share(share);
                assert(all[k] == earlier[k]);
            } else {
                assert(all[all.len() - 1] == last);
            }
        }
    }
}

/// Caching never makes a share to be held twice.
pub proof fn law_cache_keeps_shares_distinct(
    holders: Seq<GhostShareHolderView>,
    received: Seq<GhostShareView>,
    rank: u32,
)
    requires
        distinct_shares(holders),
    ensures
        distinct_shares(cached(holders, received, rank)),
    decreases received.len(),
{
    if received.len() > 0 {
        law_cache_keeps_shares_distinct(holders, received.drop_last(), rank);
    }
}

/// Caching the same shares once more changes nothing.
pub proof fn law_cache_is_idempotent(
    holders: Seq<GhostShareHolderView>,
    received: Seq<GhostShareView>,
    rank: u32,
)
    ensures
        cached(cached(holders, received, rank), received, rank) == cached(holders, received, rank),
{
    let all = cached(holders, received, rank);
    law_cache_keeps_and_adds(holders, received, rank);
    lemma_held_shares_add_nothing(all, received, rank);
}

/// Caching shares that are held already changes nothing.
proof fn lemma_held_shares_add_nothing(
    holders: Seq<GhostShareHolderView>,
    received: Seq<GhostShareView>,
    rank: u32,
)
    requires
        forall|i: int|
            0 <= i < received.len() ==> holds(holders, (#[trigger] received[i]).held_by(rank)),
    ensures
        cached(holders, received, rank) == holders,
    decreases received.len(),
{
    if received.len() > 0 {
        let shorter = received.drop_last();
        assert forall|i: int| 0 <= i < shorter.len() implies holds(
            holders,
            (#[trigger] shorter[i]).held_by(rank),
        ) by {
            assert(shorter[i] == received[i]);
        }
        lemma_held_shares_add_nothing(holders, shorter, rank);
        assert(holds(holders, received[received.len() - 1].held_by(rank)));
    }
}

/// What `picked` gives: shares of the wanted key that are held, with distinct ids, and all
/// ids that are held of the key unless there are enough.
proof fn lemma_picked(
    holders: Seq<GhostShareHolderView>,
    ghost_leaf: LeafIndex,
    key_epoch: u64,
    limit: int,
)
    requires
        limit >= 0,
    ensures
        ({
            let shares = picked(holders, ghost_leaf, key_epoch, limit);
            &&& shares.len() <= limit
            &&& forall|i: int|
                0 <= i < shares.len() ==> holders.contains(#[trigger] shares[i])
                    && shares[i].is_for(ghost_leaf, key_epoch)
            &&& forall|i: int, j: int|
                0 <= i < j < shares.len() ==> (#[trigger] shares[i]).share_id
                    != (#[trigger] shares[j]).share_id
            &&& shares.len() == limit || forall|i: int|
                0 <= i < holders.len() && (#[trigger] holders[i]).is_for(ghost_leaf, key_epoch)
                    ==> has_id(shares, holders[i].share_id)
        }),
    decreases holders.len(),
{
    if holders.len() > 0 {
        let shorter = holders.drop_last();
        lemma_picked(shorter, ghost_leaf, key_epoch, limit);
        let earlier = picked(shorter, ghost_leaf, key_epoch, limit);
        let shares = picked(holders, ghost_leaf, key_epoch, limit);
        assert forall|i: int| 0 <= i < shares.len() implies holders.contains(#[trigger] shares[i])
            && shares[i].is_for(ghost_leaf, key_epoch) by {
            if i < earlier.len() {
                assert(shares[i] == earlier[i]);
                let k = shorter.index_of(earlier[i]);
                assert(shorter.contains(earlier[i]));
                assert(holders[k] == earlier[i]);
            } else {
                assert(holders[holders.len() - 1] == shares[i]);
            }
        }
        assert forall|i: int, j: int| 0 <= i < j < shares.len() implies (
        #[trigger] shares[i]).share_id != (#[trigger] shares[j]).share_id by {
            assert(shares[i] == earlier[i]);
            if j < earlier.len() {
                assert(shares[j] == earlier[j]);
            }
        }
        if shares.len() != limit {
            assert forall|i: int|
                0 <= i < holders.len() && (#[trigger] holders[i]).is_for(
                    ghost_leaf,
                    key_epoch,
                ) implies has_id(shares, holders[i].share_id) by {
                if i < shorter.len() {
                    assert(shorter[i] == holders[i]);
                    let k = choose|k: int|
                        0 <= k < earlier.len() && (#[trigger] earlier[k]).share_id
                            == holders[i].share_id;
                    assert(shares[k] == earlier[k]);
                } else if has_id(earlier, holders[i].share_id) {
                    assert(shares == earlier);
                } else {
                    assert(shares[shares.len() - 1] == holders[i]);
                }
            }
        }
    }
}

/// A member that holds, for `threshold` distinct ids, shares from one split of a seed
/// recovers the seed, in whatever order it got them and whoever held them before, as long
/// as all shares that it holds of that key come from the split.
pub proof fn law_held_shares_recover_the_seed(
    holders: Seq<GhostShareHolderView>,
    ghost_leaf: LeafIndex,
    key_epoch: u64,
    threshold: u8,
    seed: Seq<u8>,
    polynomials: Seq<Seq<u8>>,
    ids: Set<u8>,
)
    requires
        threshold > 0,
        shares_seed(polynomials, threshold, seed),
        forall|i: int|
            0 <= i < holders.len() && (#[trigger] holders[i]).is_for(ghost_leaf, key_epoch)
                ==> is_share_of(polynomials, holders[i].share_id, holders[i].share_value),
        ids.finite(),
        ids.len() >= threshold,
        forall|id: u8| #[trigger]
            ids.contains(id) ==> exists|i: int|
                0 <= i < holders.len() && (#[trigger] holders[i]).is_for(ghost_leaf, key_epoch)
                    && holders[i].share_id == id,
    ensures
        ({
            let values = values_of(picked(holders, ghost_leaf, key_epoch, threshold as int));
            &&& readable(values)
            &&& recovered_seed(threshold, values) == Ok::<_, SecretSharingError>(seed)
        }),
{
    let shares = picked(holders, ghost_leaf, key_epoch, threshold as int);
    let values = values_of(shares);
    lemma_picked(holders, ghost_leaf, key_epoch, threshold as int);
    let found = Seq::new(shares.len(), |i: int| shares[i].share_id);
    assert(found.no_duplicates());
    if shares.len() != threshold {
        assert(ids.subset_of(found.to_set())) by {
            assert forall|id: u8| #[trigger] ids.contains(id) implies found.to_set().contains(
                id,
            ) by {
                let i = choose|i: int|
                    0 <= i < holders.len() && (#[trigger] holders[i]).is_for(
                        ghost_leaf,
                        key_epoch,
                    ) && holders[i].share_id == id;
                assert(has_id(shares, id));
                let k = choose|k: int|
                    0 <= k < shares.len() && (#[trigger] shares[k]).share_id == id;
                assert(found[k] == id);
            }
        }
        found.unique_seq_to_set();
        vstd::set_lib::lemma_len_subset(ids, found.to_set());
        assert(false);
    }
    assert forall|i: int| 0 <= i < shares.len() implies #[trigger] is_share_of(
        polynomials,
        shares[i].share_id,
        shares[i].share_value,
    ) by {
        let k = holders.index_of(shares[i]);
        assert(holders.contains(shares[i]));
        assert(holders[k] == shares[i]);
        assert(holders[k].is_for(ghost_leaf, key_epoch));
    }
    assert forall|i: int| 0 <= i < values.len() implies #[trigger] values[i].len() > 0 by {
        assert(is_share_of(polynomials, shares[i].share_id, shares[i].share_value));
    }
    assert forall|i: int| 0 <= i < found.len() implies #[trigger] found[i] != 0 by {
        assert(is_share_of(polynomials, shares[i].share_id, shares[i].share_value));
    }
    assert(shares_at(polynomials, found) =~= values) by {
        assert forall|i: int| 0 <= i < values.len() implies shares_at(polynomials, found)[i]
            == values[i] by {
            assert(is_share_of(polynomials, shares[i].share_id, shares[i].share_value));
        }
    }
    assert(values.take(threshold as int) =~= values);
    assert(recoverable(polynomials, threshold, base64_text(seed)));
}

/// The height of the lowest node above both `x` and `y` is the least number of halvings after
/// which they are the same.
pub proof fn law_lca_level_is_the_least(x: nat, y: nat)
    ensures
        x / pow2(lca_level(x, y)) == y / pow2(lca_level(x, y)),
        forall|q: nat| q < lca_level(x, y) ==> x / #[trigger] pow2(q) != y / pow2(q),
        lca_level(y, x) == lca_level(x, y),
    decreases x + y,
{
    vstd::arithmetic::power2::lemma2_to64();
    if x == y {
        assert(x / pow2(0) == x);
    } else {
        let k = lca_level(x / 2, y / 2);
        law_lca_level_is_the_least(x / 2, y / 2);
        lemma_halve_first(x, k);
        lemma_halve_first(y, k);
        assert forall|q: nat| q < lca_level(x, y) implies x / #[trigger] pow2(q) != y / pow2(
            q,
        ) by {
            if q == 0 {
                assert(pow2(0) == 1);
                assert(x / 1 == x && y / 1 == y);
            } else {
                lemma_halve_first(x, (q - 1) as nat);
                lemma_halve_first(y, (q - 1) as nat);
                assert((x / 2) / pow2((q - 1) as nat) != (y / 2) / pow2((q - 1) as nat));
            }
        }
    }
}

/// Halving once and then `k` times is halving `k + 1` times.
proof fn lemma_halve_first(x: nat, k: nat)
    ensures
        (x / 2) / pow2(k) == x / pow2(k + 1),
{
    vstd::arithmetic::power2::lemma_pow2_pos(k);
    vstd::arithmetic::power2::lemma_pow2_unfold(k + 1);
    vstd::arithmetic::div_mod::lemma_div_denominator(x as int, 2, pow2(k) as int);
}

/// An update starts at the lowest node above both leaves: of the nodes of the path, each of
/// which stands above the leaves that agree after so many halvings of their indexes, it is the
/// first that the other leaf is below. For the two leaves below one parent it is the parent.
pub proof fn law_update_starts_at_the_lowest_common_node(own: LeafIndex, other: LeafIndex)
    requires
        own != other,
    ensures
        0 <= common_position(own, other) < 32,
        own.0 as nat / pow2((common_position(own, other) + 1) as nat) == other.0 as nat / pow2(
            (common_position(own, other) + 1) as nat,
        ),
        forall|q: nat|
            q <= common_position(own, other) ==> own.0 as nat / #[trigger] pow2(q) != other.0 as nat
                / pow2(q),
        own.0 / 2 == other.0 / 2 <==> common_position(own, other) == 0,
        common_position(other, own) == common_position(own, other),
{
    let x = 2 * own.0 as nat;
    let y = 2 * other.0 as nat;
    let k = lca_level(x, y);
    lemma_distinct_leaves(own, other);
    law_lca_level_is_the_least(x, y);
    assert(x / 2 == own.0 as nat && y / 2 == other.0 as nat);
    lemma_halve_first(x, (k - 1) as nat);
    lemma_halve_first(y, (k - 1) as nat);
    assert forall|q: nat| q <= common_position(own, other) implies own.0 as nat / #[trigger] pow2(q)
        != other.0 as nat / pow2(q) by {
        lemma_halve_first(x, q);
        lemma_halve_first(y, q);
        assert(x / pow2(q + 1) != y / pow2(q + 1));
    }
    vstd::arithmetic::power2::lemma2_to64();
    assert(pow2(1) == 2);
    if k > 33 {
        assert(pow2(32) == 0x1_0000_0000);
        assert(own.0 as nat / pow2(32) == 0) by (nonlinear_arith)
            requires
                pow2(32) == 0x1_0000_0000,
                own.0 < 0x1_0000_0000,
        ;
        assert(other.0 as nat / pow2(32) == 0) by (nonlinear_arith)
            requires
                pow2(32) == 0x1_0000_0000,
                other.0 < 0x1_0000_0000,
        ;
        assert(false);
    }
}

/// Halvings that give the same result once give it ever after, so that one place is the first
/// at which two leaves come together.
pub proof fn law_common_nodes_stay_common(own: LeafIndex, other: LeafIndex, p: nat)
    requires
        own != other,
        own.0 as nat / pow2(p + 1) == other.0 as nat / pow2(p + 1),
        own.0 as nat / pow2(p) != other.0 as nat / pow2(p),
    ensures
        common_position(own, other) == p,
{
    law_update_starts_at_the_lowest_common_node(own, other);
    let c = common_position(own, other) as nat;
    if c > p {
        assert(own.0 as nat / pow2(p + 1) != other.0 as nat / pow2(p + 1));
    }
    if c < p {
        lemma_halvings_agree(own.0 as nat, other.0 as nat, c + 1, p);
    }
}

/// Numbers that agree after some halvings agree after more.
proof fn lemma_halvings_agree(x: nat, y: nat, a: nat, b: nat)
    requires
        a <= b,
        x / pow2(a) == y / pow2(a),
    ensures
        x / pow2(b) == y / pow2(b),
    decreases b - a,
{
    if a < b {
        vstd::arithmetic::power2::lemma_pow2_pos(a);
        vstd::arithmetic::power2::lemma_pow2_unfold(a + 1);
        vstd::arithmetic::div_mod::lemma_div_denominator(x as int, pow2(a) as int, 2);
        vstd::arithmetic::div_mod::lemma_div_denominator(y as int, pow2(a) as int, 2);
        assert(pow2(a) * 2 == 2 * pow2(a));
        lemma_halvings_agree(x, y, a + 1, b);
    }
}

/// Which of the received shares are added to those that are held, by their places: in order,
/// each whose leaf, epoch and id nothing in the same hands has yet, neither among the shares
/// held before nor among those received before it. They are added behind what was held, with
/// the leaf, the epoch, the id and the bytes that were received, and in the hands of the given
/// member.
pub proof fn law_new_shares_are_added_in_order(
    holders: Seq<GhostShareHolder>,
    received: Seq<GhostShare>,
    rank: u32,
) -> (at: Seq<int>)
    ensures
        cached(holder_views(holders), share_views(received), rank).len() == holders.len()
            + at.len(),
        forall|j: int|
            #![trigger cached(holder_views(holders), share_views(received), rank)[j]]
            0 <= j < holders.len() ==> {
                let all = cached(holder_views(holders), share_views(received), rank);
                &&& all[j].ghost_leaf == holders[j].ghost_leaf
                &&& all[j].key_epoch == holders[j].key_epoch
                &&& all[j].share_id == holders[j].share_id
                &&& all[j].holder_rank == holders[j].holder_rank
                &&& all[j].share_value == holders[j].share_value@
            },
        forall|j: int| 0 <= j < at.len() ==> 0 <= #[trigger] at[j] < received.len(),
        forall|j: int, k: int| 0 <= j < k < at.len() ==> #[trigger] at[j] < #[trigger] at[k],
        forall|j: int| 0 <= j < at.len() ==> {
            let all = cached(holder_views(holders), share_views(received), rank);
            let i = #[trigger] at[j];
            &&& all[holders.len() + j].ghost_leaf == received[i].ghost_leaf
            &&& all[holders.len() + j].key_epoch == received[i].key_epoch
            &&& all[holders.len() + j].share_id == received[i].share_id
            &&& all[holders.len() + j].holder_rank == rank
            &&& all[holders.len() + j].share_value == received[i].share_value@
        },
        forall|i: int| #[trigger]
            at.contains(i) <==> 0 <= i < received.len() && (forall|h: int|
                0 <= h < holders.len() ==> !((#[trigger] holders[h]).ghost_leaf
                    == received[i].ghost_leaf && holders[h].key_epoch == received[i].key_epoch
                    && holders[h].share_id == received[i].share_id && holders[h].holder_rank
                    == rank)) && (forall|e: int|
                0 <= e < i ==> !((#[trigger] received[e]).ghost_leaf == received[i].ghost_leaf
                    && received[e].key_epoch == received[i].key_epoch && received[e].share_id
                    == received[i].share_id)),
    decreases received.len(),
{
    let before = holder_views(holders);
    let all = cached(before, share_views(received), rank);
    if received.len() == 0 {
        assert(share_views(received) =~= Seq::empty());
        let at: Seq<int> = Seq::empty();
        assert forall|i: int| !(#[trigger] at.contains(i)) by {}
        at
    } else {
        let n = received.len() - 1;
        let shorter = received.drop_last();
        assert(share_views(received).drop_last() =~= share_views(shorter));
        assert(share_views(received).last() == received[n]@);
        let earlier = cached(before, share_views(shorter), rank);
        let last = received[n]@.held_by(rank);
        let old_at = law_new_shares_are_added_in_order(holders, shorter, rank);
        assert forall|j: int| 0 <= j < earlier.len() implies #[trigger] all[j] == earlier[j] by {}
        if holds(earlier, last) {
            let j = choose|j: int| 0 <= j < earlier.len() && (#[trigger] earlier[j]).same_share(last);
            if j < holders.len() {
                assert(holders[j].ghost_leaf == received[n].ghost_leaf);
            } else {
                let e = old_at[j - holders.len()];
                assert(received[e] == shorter[e]);
                assert(received[e].ghost_leaf == received[n].ghost_leaf);
            }
            assert forall|i: int| #[trigger]
                old_at.contains(i) <==> 0 <= i < received.len() && (forall|h: int|
                    0 <= h < holders.len() ==> !((#[trigger] holders[h]).ghost_leaf
                        == received[i].ghost_leaf && holders[h].key_epoch == received[i].key_epoch
                        && holders[h].share_id == received[i].share_id && holders[h].holder_rank
                        == rank)) && (forall|e: int|
                    0 <= e < i ==> !((#[trigger] received[e]).ghost_leaf == received[i].ghost_leaf
                        && received[e].key_epoch == received[i].key_epoch && received[e].share_id
                        == received[i].share_id)) by {
                lemma_first_of_shorter(received, i);
            }
            assert(all == earlier);
            assert forall|j: int| 0 <= j < old_at.len() implies all[holders.len() + j]
                == received[#[trigger] old_at[j]]@.held_by(rank) by {
                assert(received[old_at[j]] == shorter[old_at[j]]);
                assert(all[holders.len() + j] == earlier[holders.len() + j]);
                assert(shorter[old_at[j]].share_value@ == earlier[holders.len() + j].share_value);
            }
            old_at
        } else {
            let at = old_at.push(n);
            assert(all[earlier.len() as int] == last);
            assert forall|h: int| 0 <= h < holders.len() implies !((
            #[trigger] holders[h]).ghost_leaf == received[n].ghost_leaf && holders[h].key_epoch
                == received[n].key_epoch && holders[h].share_id == received[n].share_id
                && holders[h].holder_rank == rank) by {
                assert(!earlier[h].same_share(last));
            }
            assert forall|e: int| 0 <= e < n implies !((#[trigger] received[e]).ghost_leaf
                == received[n].ghost_leaf && received[e].key_epoch == received[n].key_epoch
                && received[e].share_id == received[n].share_id) by {
                law_cache_keeps_and_adds(before, share_views(shorter), rank);
                assert(share_views(shorter)[e] == received[e]@);
                let share = share_views(shorter)[e].held_by(rank);
                assert(holds(earlier, share));
                let j = choose|j: int|
                    0 <= j < earlier.len() && (#[trigger] earlier[j]).same_share(share);
                assert(!earlier[j].same_share(last));
            }
            assert forall|i: int| #[trigger]
                at.contains(i) <==> 0 <= i < received.len() && (forall|h: int|
                    0 <= h < holders.len() ==> !((#[trigger] holders[h]).ghost_leaf
                        == received[i].ghost_leaf && holders[h].key_epoch == received[i].key_epoch
                        && holders[h].share_id == received[i].share_id && holders[h].holder_rank
                        == rank)) && (forall|e: int|
                    0 <= e < i ==> !((#[trigger] received[e]).ghost_leaf == received[i].ghost_leaf
                        && received[e].key_epoch == received[i].key_epoch && received[e].share_id
                        == received[i].share_id)) by {
                lemma_first_of_shorter(received, i);
                if i == n {
                    assert(at[old_at.len() as int] == n);
                } else if old_at.contains(i) {
                    assert(at[old_at.index_of(i)] == i);
                } else if at.contains(i) {
                    assert(old_at[at.index_of(i)] == i);
                }
            }
            assert forall|j: int| 0 <= j < at.len() implies all[holders.len() + j]
                == received[#[trigger] at[j]]@.held_by(rank) by {
                if j < old_at.len() {
                    assert(at[j] == old_at[j]);
                    assert(received[old_at[j]] == shorter[old_at[j]]);
                    assert(all[holders.len() + j] == earlier[holders.len() + j]);
                    assert(shorter[old_at[j]].share_value@ == earlier[holders.len()
                        + j].share_value);
                }
            }
            at
        }
    }
}

/// What comes before a share in a list comes before it in the list without its end.
proof fn lemma_first_of_shorter(received: Seq<GhostShare>, i: int)
    requires
        received.len() > 0,
    ensures
        0 <= i < received.len() - 1 ==> received.drop_last()[i] == received[i] && ((forall|e: int|
            0 <= e < i ==> !((#[trigger] received[e]).ghost_leaf == received[i].ghost_leaf
                && received[e].key_epoch == received[i].key_epoch && received[e].share_id
                == received[i].share_id)) <==> (forall|e: int|
            0 <= e < i ==> !((#[trigger] received.drop_last()[e]).ghost_leaf
                == received.drop_last()[i].ghost_leaf && received.drop_last()[e].key_epoch
                == received.drop_last()[i].key_epoch && received.drop_last()[e].share_id
                == received.drop_last()[i].share_id))),
{
    let shorter = received.drop_last();
    if 0 <= i < received.len() - 1 {
        assert forall|e: int| 0 <= e <= i implies shorter[e] == #[trigger] received[e] by {}
        assert forall|e: int| 0 <= e <= i implies #[trigger] shorter[e] == received[e] by {}
    }
}

/// After caching, a share with the leaf, the epoch and the id of each received share is held in
/// the hands of the given member. It has the received bytes too, if nothing with that leaf,
/// epoch and id was in those hands, or received, before.
pub proof fn law_each_received_share_is_held(
    holders: Seq<GhostShareHolder>,
    received: Seq<GhostShare>,
    rank: u32,
    i: int,
)
    requires
        0 <= i < received.len(),
    ensures
        exists|j: int|
            0 <= j < cached(holder_views(holders), share_views(received), rank).len() && (
            #[trigger] cached(holder_views(holders), share_views(received), rank)[j]).ghost_leaf
                == received[i].ghost_leaf && cached(
                holder_views(holders),
                share_views(received),
                rank,
            )[j].key_epoch == received[i].key_epoch && cached(
                holder_views(holders),
                share_views(received),
                rank,
            )[j].share_id == received[i].share_id && cached(
                holder_views(holders),
                share_views(received),
                rank,
            )[j].holder_rank == rank,
        (forall|h: int|
            0 <= h < holders.len() ==> !((#[trigger] holders[h]).ghost_leaf
                == received[i].ghost_leaf && holders[h].key_epoch == received[i].key_epoch
                && holders[h].share_id == received[i].share_id && holders[h].holder_rank == rank))
            && (forall|e: int|
            0 <= e < i ==> !((#[trigger] received[e]).ghost_leaf == received[i].ghost_leaf
                && received[e].key_epoch == received[i].key_epoch && received[e].share_id
                == received[i].share_id)) ==> exists|j: int|
            holders.len() <= j < cached(
                holder_views(holders),
                share_views(received),
                rank,
            ).len() && (#[trigger] cached(
                holder_views(holders),
                share_views(received),
                rank,
            )[j]).ghost_leaf == received[i].ghost_leaf && cached(
                holder_views(holders),
                share_views(received),
                rank,
            )[j].key_epoch == received[i].key_epoch && cached(
                holder_views(holders),
                share_views(received),
                rank,
            )[j].share_id == received[i].share_id && cached(
                holder_views(holders),
                share_views(received),
                rank,
            )[j].holder_rank == rank && cached(
                holder_views(holders),
                share_views(received),
                rank,
            )[j].share_value == received[i].share_value@,
{
    let all = cached(holder_views(holders), share_views(received), rank);
    law_cache_keeps_and_adds(holder_views(holders), share_views(received), rank);
    assert(share_views(received)[i] == received[i]@);
    let share = share_views(received)[i].held_by(rank);
    assert(holds(all, share));
    let j = choose|j: int| 0 <= j < all.len() && (#[trigger] all[j]).same_share(share);
    assert(all[j].ghost_leaf == received[i].ghost_leaf);
    let at = law_new_shares_are_added_in_order(holders, received, rank);
    if at.contains(i) {
        let k = at.index_of(i);
        assert(at[k] == i);
        assert(all[holders.len() + k].ghost_leaf == received[i].ghost_leaf);
    }
}

/// The shares that are held of a key are those whose leaf and epoch are the ones that are
/// asked for, in the order in which they are held: none is left out, and no other is given.
pub proof fn law_shares_are_found_by_leaf_and_epoch(
    held: Seq<GhostShareHolder>,
    found: Seq<GhostShareHolder>,
    ghost_leaf: LeafIndex,
    key_epoch: u64,
) -> (at: Seq<int>)
    requires
        holder_views(found) == holder_views(held).filter(
            |s: GhostShareHolderView| s.is_for(ghost_leaf, key_epoch),
        ),
    ensures
        at.len() == found.len(),
        forall|j: int, k: int| 0 <= j < k < at.len() ==> #[trigger] at[j] < #[trigger] at[k],
        forall|j: int|
            0 <= j < at.len() ==> 0 <= #[trigger] at[j] < held.len() && found[j].ghost_leaf
                == held[at[j]].ghost_leaf && found[j].key_epoch == held[at[j]].key_epoch
                && found[j].share_id == held[at[j]].share_id && found[j].holder_rank
                == held[at[j]].holder_rank && found[j].share_value@ == held[at[j]].share_value@,
        forall|i: int| #[trigger]
            at.contains(i) <==> 0 <= i < held.len() && held[i].ghost_leaf == ghost_leaf
                && held[i].key_epoch == key_epoch,
    decreases held.len(),
{
    reveal(Seq::filter);
    let wanted = |s: GhostShareHolderView| s.is_for(ghost_leaf, key_epoch);
    let views = holder_views(held);
    if held.len() == 0 {
        assert(holder_views(found).len() == 0);
        let at: Seq<int> = Seq::empty();
        assert forall|i: int| !(#[trigger] at.contains(i)) by {}
        at
    } else {
        let n = held.len() - 1;
        let shorter = held.drop_last();
        assert(views.drop_last() =~= holder_views(shorter));
        assert(views.last() == held[n]@);
        if wanted(views.last()) {
            let front = found.drop_last();
            assert(holder_views(found) == holder_views(shorter).filter(wanted).push(held[n]@));
            assert(found.len() == holder_views(found).len());
            assert(holder_views(front) =~= holder_views(shorter).filter(wanted)) by {
                assert forall|j: int| 0 <= j < front.len() implies holder_views(front)[j]
                    == holder_views(shorter).filter(wanted)[j] by {
                    assert(holder_views(found)[j] == found[j]@);
                    assert(front[j] == found[j]);
                }
            }
            let old_at = law_shares_are_found_by_leaf_and_epoch(
                shorter,
                front,
                ghost_leaf,
                key_epoch,
            );
            let at = old_at.push(n);
            assert(holder_views(found)[found.len() - 1] == held[n]@);
            assert(found[found.len() - 1]@ == held[n]@);
            assert forall|i: int| #[trigger]
                at.contains(i) <==> 0 <= i < held.len() && held[i].ghost_leaf == ghost_leaf
                    && held[i].key_epoch == key_epoch by {
                if i == n {
                    assert(at[old_at.len() as int] == n);
                } else if old_at.contains(i) {
                    assert(at[old_at.index_of(i)] == i);
                } else if at.contains(i) {
                    assert(old_at[at.index_of(i)] == i);
                }
                if 0 <= i < n {
                    assert(shorter[i] == held[i]);
                    assert(old_at.contains(i) <==> shorter[i].ghost_leaf == ghost_leaf
                        && shorter[i].key_epoch == key_epoch);
                }
            }
            assert forall|j: int| 0 <= j < old_at.len() implies #[trigger] at[j] == old_at[j]
                && shorter[old_at[j]] == held[old_at[j]] && front[j] == found[j] by {}
            at
        } else {
            let at = law_shares_are_found_by_leaf_and_epoch(shorter, found, ghost_leaf, key_epoch);
            assert forall|i: int| #[trigger]
                at.contains(i) <==> 0 <= i < held.len() && held[i].ghost_leaf == ghost_leaf
                    && held[i].key_epoch == key_epoch by {
                if 0 <= i < n {
                    assert(shorter[i] == held[i]);
                }
            }
            assert forall|j: int| 0 <= j < at.len() implies shorter[#[trigger] at[j]]
                == held[at[j]] by {}
            at
        }
    }
}

/// From which of the shares that are held a seed is recovered, by their places: in order, the
/// first of each id among those with the leaf and the epoch that are asked for, until there are
/// as many as the threshold asks for. Their bytes are taken as they are held.
pub proof fn law_seed_is_recovered_from_the_first_of_each_id(
    private: TreeKemPrivate,
    ghost_leaf: LeafIndex,
    key_epoch: u64,
    threshold: u8,
) -> (at: Seq<int>)
    ensures
        private.shares_for_seed(ghost_leaf, key_epoch, threshold).len() == at.len(),
        at.len() <= threshold,
        forall|j: int, k: int| 0 <= j < k < at.len() ==> #[trigger] at[j] < #[trigger] at[k],
        forall|j: int|
            0 <= j < at.len() ==> 0 <= #[trigger] at[j] < private.ghost_share_holders@.len()
                && private.shares_for_seed(ghost_leaf, key_epoch, threshold)[j]
                == private.ghost_share_holders@[at[j]].share_value@,
        forall|i: int| #[trigger]
            at.contains(i) ==> private.ghost_share_holders@[i].ghost_leaf == ghost_leaf
                && private.ghost_share_holders@[i].key_epoch == key_epoch && (forall|e: int|
                0 <= e < i ==> !((#[trigger] private.ghost_share_holders@[e]).ghost_leaf
                    == ghost_leaf && private.ghost_share_holders@[e].key_epoch == key_epoch
                    && private.ghost_share_holders@[e].share_id
                    == private.ghost_share_holders@[i].share_id)),
        forall|i: int|
            0 <= i < private.ghost_share_holders@.len() && (
            #[trigger] private.ghost_share_holders@[i]).ghost_leaf == ghost_leaf
                && private.ghost_share_holders@[i].key_epoch == key_epoch && (forall|e: int|
                0 <= e < i ==> !((#[trigger] private.ghost_share_holders@[e]).ghost_leaf
                    == ghost_leaf && private.ghost_share_holders@[e].key_epoch == key_epoch
                    && private.ghost_share_holders@[e].share_id
                    == private.ghost_share_holders@[i].share_id)) && (at.len() < threshold || (
            at.len() > 0 && i <= at.last())) ==> at.contains(i),
{
    let at = lemma_picked_places(
        private.ghost_share_holders@,
        ghost_leaf,
        key_epoch,
        threshold as int,
    );
    let held = private.ghost_share_holders@;
    assert forall|i: int| #[trigger] at.contains(i) implies first_of_id(
        held,
        ghost_leaf,
        key_epoch,
        i,
    ) by {}
    assert forall|i: int|
        0 <= i < held.len() && (#[trigger] held[i]).ghost_leaf == ghost_leaf && held[i].key_epoch
            == key_epoch && (forall|e: int|
            0 <= e < i ==> !((#[trigger] held[e]).ghost_leaf == ghost_leaf && held[e].key_epoch
                == key_epoch && held[e].share_id == held[i].share_id)) && (at.len() < threshold || (
        at.len() > 0 && i <= at.last())) implies at.contains(i) by {
        assert(first_of_id(held, ghost_leaf, key_epoch, i));
    }
    at
}

/// Whether the share at `i` is of the given key, and none of that key before it has its id.
spec fn first_of_id(
    held: Seq<GhostShareHolder>,
    ghost_leaf: LeafIndex,
    key_epoch: u64,
    i: int,
) -> bool {
    &&& 0 <= i < held.len()
    &&& held[i].ghost_leaf == ghost_leaf
    &&& held[i].key_epoch == key_epoch
    &&& forall|e: int|
        0 <= e < i ==> !((#[trigger] held[e]).ghost_leaf == ghost_leaf && held[e].key_epoch
            == key_epoch && held[e].share_id == held[i].share_id)
}

/// The end of a list does not decide on what stands before it.
proof fn lemma_first_before_the_end(
    held: Seq<GhostShareHolder>,
    ghost_leaf: LeafIndex,
    key_epoch: u64,
    i: int,
)
    requires
        0 <= i < held.len() - 1,
    ensures
        first_of_id(held.drop_last(), ghost_leaf, key_epoch, i) == first_of_id(
            held,
            ghost_leaf,
            key_epoch,
            i,
        ),
{
    let shorter = held.drop_last();
    assert(shorter[i] == held[i]);
    if first_of_id(shorter, ghost_leaf, key_epoch, i) {
        assert forall|e: int| 0 <= e < i implies !((#[trigger] held[e]).ghost_leaf == ghost_leaf
            && held[e].key_epoch == key_epoch && held[e].share_id == held[i].share_id) by {
            assert(shorter[e] == held[e]);
        }
    }
    if first_of_id(held, ghost_leaf, key_epoch, i) {
        assert forall|e: int| 0 <= e < i implies !((#[trigger] shorter[e]).ghost_leaf == ghost_leaf
            && shorter[e].key_epoch == key_epoch && shorter[e].share_id == shorter[i].share_id) by {
            assert(shorter[e] == held[e]);
        }
    }
}

/// The places of the shares that are picked.
proof fn lemma_picked_places(
    held: Seq<GhostShareHolder>,
    ghost_leaf: LeafIndex,
    key_epoch: u64,
    limit: int,
) -> (at: Seq<int>)
    requires
        limit >= 0,
    ensures
        picked(holder_views(held), ghost_leaf, key_epoch, limit).len() == at.len(),
        at.len() <= limit,
        forall|j: int, k: int| 0 <= j < k < at.len() ==> #[trigger] at[j] < #[trigger] at[k],
        forall|j: int|
            0 <= j < at.len() ==> 0 <= #[trigger] at[j] < held.len() && picked(
                holder_views(held),
                ghost_leaf,
                key_epoch,
                limit,
            )[j] == held[at[j]]@,
        forall|i: int| #[trigger]
            at.contains(i) ==> first_of_id(held, ghost_leaf, key_epoch, i),
        forall|i: int| #[trigger]
            first_of_id(held, ghost_leaf, key_epoch, i) && (at.len() < limit || (at.len() > 0 && i
                <= at.last())) ==> at.contains(i),
    decreases held.len(),
{
    let all = picked(holder_views(held), ghost_leaf, key_epoch, limit);
    if held.len() == 0 {
        let at: Seq<int> = Seq::empty();
        assert forall|i: int| !(#[trigger] at.contains(i)) by {}
        at
    } else {
        let n = held.len() - 1;
        let shorter = held.drop_last();
        let views = holder_views(held);
        assert(views.drop_last() =~= holder_views(shorter));
        assert(views.last() == held[n]@);
        let earlier = picked(holder_views(shorter), ghost_leaf, key_epoch, limit);
        let old_at = lemma_picked_places(shorter, ghost_leaf, key_epoch, limit);
        lemma_picked(holder_views(shorter), ghost_leaf, key_epoch, limit);
        assert forall|i: int| #[trigger] old_at.contains(i) implies 0 <= i < n && first_of_id(
            held,
            ghost_leaf,
            key_epoch,
            i,
        ) by {
            assert(old_at[old_at.index_of(i)] == i);
            lemma_first_before_the_end(held, ghost_leaf, key_epoch, i);
        }
        assert forall|i: int|
            i != n && #[trigger] first_of_id(held, ghost_leaf, key_epoch, i) && (old_at.len()
                < limit || (old_at.len() > 0 && i <= old_at.last())) implies old_at.contains(i) by {
            lemma_first_before_the_end(held, ghost_leaf, key_epoch, i);
        }
        if earlier.len() >= limit || !held[n]@.is_for(ghost_leaf, key_epoch) || has_id(
            earlier,
            held[n].share_id,
        ) {
            if old_at.len() > 0 {
                assert(old_at.contains(old_at[old_at.len() - 1]));
            }
            if earlier.len() < limit && held[n]@.is_for(ghost_leaf, key_epoch) {
                let j = choose|j: int|
                    0 <= j < earlier.len() && (#[trigger] earlier[j]).share_id == held[n].share_id;
                let e = old_at[j];
                assert(earlier[j] == shorter[e]@);
                assert(old_at.contains(e));
                assert(held[e] == shorter[e]);
                assert(held[e].ghost_leaf == ghost_leaf);
                assert(!first_of_id(held, ghost_leaf, key_epoch, n));
            }
            assert forall|j: int| 0 <= j < old_at.len() implies 0 <= #[trigger] old_at[j]
                < held.len() && all[j] == held[old_at[j]]@ by {
                assert(held[old_at[j]] == shorter[old_at[j]]);
            }
            old_at
        } else {
            let at = old_at.push(n);
            assert(all == earlier.push(held[n]@));
            assert forall|i: int| #[trigger] at.contains(i) <==> i == n || old_at.contains(i) by {
                if i == n {
                    assert(at[old_at.len() as int] == n);
                } else if old_at.contains(i) {
                    assert(at[old_at.index_of(i)] == i);
                } else if at.contains(i) {
                    assert(old_at[at.index_of(i)] == i);
                }
            }
            assert forall|e: int| 0 <= e < n implies !((#[trigger] held[e]).ghost_leaf == ghost_leaf
                && held[e].key_epoch == key_epoch && held[e].share_id == held[n].share_id) by {
                if held[e].ghost_leaf == ghost_leaf && held[e].key_epoch == key_epoch {
                    assert(shorter[e] == held[e]);
                    assert(holder_views(shorter)[e].is_for(ghost_leaf, key_epoch));
                    assert(has_id(earlier, held[e].share_id));
                }
            }
            assert(first_of_id(held, ghost_leaf, key_epoch, n));
            assert forall|j: int| 0 <= j < at.len() implies 0 <= #[trigger] at[j] < held.len()
                && all[j] == held[at[j]]@ by {
                if j < old_at.len() {
                    assert(at[j] == old_at[j]);
                    assert(held[old_at[j]] == shorter[old_at[j]]);
                }
            }
            at
        }
    }
}

/// The keys that were derived go to the nodes that are not filtered out, in order: the one at
/// place `to` is counted by the nodes before it that are not filtered out.
pub proof fn law_derived_keys_skip_filtered_nodes(path: Seq<PathNode>, from: int, to: int)
    requires
        0 <= from <= to <= path.len(),
    ensures
        unfiltered(path, from, to) == path.subrange(from, to).filter(
            |node: PathNode| !node.filtered,
        ).len(),
        unfiltered(path, from, to) <= to - from,
    decreases to - from,
{
    let open = |node: PathNode| !node.filtered;
    reveal(Seq::filter);
    if from == to {
        assert(path.subrange(from, to) =~= Seq::empty());
    } else {
        law_derived_keys_skip_filtered_nodes(path, from, to - 1);
        assert(path.subrange(from, to).drop_last() =~= path.subrange(from, to - 1));
        assert(path.subrange(from, to).last() == path[to - 1]);
    }
}

/// A node gets the secret key of a derived pair exactly if the tree has a public key there, and
/// it is that of the pair. A path secret that could not be derived comes before all that is
/// wrong at the node, and a node that could not be looked up, or is blank, before a key pair
/// that could not be derived.
pub proof fn law_node_gets_the_key_of_its_public_key(node: PathNode, derived: DerivedKeys)
    ensures
        node_key(node, derived) is Ok <==> derived is Pair && node.public_key is Ok
            && node.public_key->Ok_0 is Some && node.public_key->Ok_0->0.bytes@
            == derived->Pair_1.bytes@,
        node_key(node, derived) is Ok ==> node_key(node, derived)->Ok_0 == derived->Pair_0.bytes@,
        derived matches DerivedKeys::NoSecret(e) ==> node_key(node, derived) == Err::<Seq<u8>, _>(e),
        !(derived is NoSecret) && node.public_key is Err ==> node_key(node, derived) == Err::<
            Seq<u8>,
            _,
        >(node.public_key->Err_0),
        !(derived is NoSecret) && node.public_key is Ok && node.public_key->Ok_0 is None
            ==> node_key(node, derived) == Err::<Seq<u8>, _>(MlsError::PubKeyMismatch),
        derived is NoKeyPair && node.public_key is Ok && node.public_key->Ok_0 is Some ==> node_key(
            node,
            derived,
        ) == Err::<Seq<u8>, _>(derived->NoKeyPair_0),
        derived is Pair && node.public_key is Ok && node.public_key->Ok_0 is Some
            && node.public_key->Ok_0->0.bytes@ != derived->Pair_1.bytes@ ==> node_key(node, derived)
            == Err::<Seq<u8>, _>(MlsError::PubKeyMismatch),
{
}

/// Key pairs that belong to the nodes are taken: if each node from the lowest common one up
/// that is not filtered out has a public key, and the pair that is counted for it is a pair
/// with that key, no node stops the update, and nothing more has to be derived.
pub proof fn law_matching_keys_are_taken(
    own: LeafIndex,
    signer: LeafIndex,
    from: nat,
    path: Seq<PathNode>,
    derived: Seq<DerivedKeys>,
)
    requires
        own != signer,
        own.0 as nat / pow2(from + 1) == signer.0 as nat / pow2(from + 1),
        own.0 as nat / pow2(from) != signer.0 as nat / pow2(from),
        from <= path.len(),
        path.subrange(from as int, path.len() as int).filter(
            |node: PathNode| !node.filtered,
        ).len() <= derived.len(),
        forall|i: int|
            from <= i < path.len() && !(#[trigger] path[i]).filtered ==> {
                let keys = derived[path.subrange(from as int, i).filter(
                    |node: PathNode| !node.filtered,
                ).len() as int];
                &&& keys is Pair
                &&& path[i].public_key is Ok
                &&& path[i].public_key->Ok_0 is Some
                &&& path[i].public_key->Ok_0->0.bytes@ == keys->Pair_1.bytes@
            },
    ensures
        all_match(path, derived, common_position(own, signer), path.len() as int),
        supplied(path, derived, common_position(own, signer)),
{
    law_common_nodes_stay_common(own, signer, from);
    let f = from as int;
    assert forall|i: int| from <= i < path.len() && !path[i].filtered implies (#[trigger] key_at(
        path,
        derived,
        f,
        i,
    )) is Ok by {
        law_derived_keys_skip_filtered_nodes(path, f, i);
        assert(!path[i].filtered);
    }
    law_derived_keys_skip_filtered_nodes(path, f, path.len() as int);
    assert forall|i: int|
        from <= i < path.len() && !path[i].filtered && all_match(path, derived, f, i)
            implies #[trigger] unfiltered(path, f, i) < derived.len() by {
        lemma_unfiltered_grows(path, f, i + 1, path.len() as int);
    }
}

/// The number of nodes that are not filtered out grows with the path.
proof fn lemma_unfiltered_grows(path: Seq<PathNode>, from: int, a: int, b: int)
    requires
        from <= a <= b,
    ensures
        unfiltered(path, from, a) <= unfiltered(path, from, b),
    decreases b - a,
{
    if a < b {
        lemma_unfiltered_grows(path, from, a, b - 1);
    }
}

/// One more key is needed as long as every one so far belongs to its node, and there is a
/// further node that is not filtered out.
pub proof fn law_a_key_is_needed_for_the_next_node(
    path: Seq<PathNode>,
    derived: Seq<DerivedKeys>,
    from: int,
    at: int,
)
    requires
        0 <= from <= at < path.len(),
        !path[at].filtered,
        path.subrange(from, at).filter(|node: PathNode| !node.filtered).len() == derived.len(),
        forall|i: int|
            from <= i < at && !(#[trigger] path[i]).filtered ==> {
                let keys = derived[path.subrange(from, i).filter(
                    |node: PathNode| !node.filtered,
                ).len() as int];
                &&& keys is Pair
                &&& path[i].public_key is Ok
                &&& path[i].public_key->Ok_0 is Some
                &&& path[i].public_key->Ok_0->0.bytes@ == keys->Pair_1.bytes@
            },
    ensures
        !supplied(path, derived, from),
{
    law_derived_keys_skip_filtered_nodes(path, from, at);
    assert(all_match(path, derived, from, at)) by {
        assert forall|i: int| from <= i < at && !path[i].filtered implies (#[trigger] key_at(
            path,
            derived,
            from,
            i,
        )) is Ok by {
            law_derived_keys_skip_filtered_nodes(path, from, i);
            assert(!path[i].filtered);
        }
    }
    assert(unfiltered(path, from, at) == derived.len());
}

/// What an update leaves behind, key by key, if it came to the node at `to`. The store has a
/// place for the leaf and one for each node of the path. The keys of the leaf, of the nodes
/// below the lowest common one, of those that are filtered out and of those from `to` on are
/// what they were before, or none. Each other node has the secret key of the derived pair that
/// is counted for it, whose public key is the one in the tree.
pub proof fn law_update_sets_the_keys_from_the_common_node_up(
    before: TreeKemPrivate,
    after: TreeKemPrivate,
    signer: LeafIndex,
    from: nat,
    path: Seq<PathNode>,
    derived: Seq<DerivedKeys>,
    to: int,
    p: int,
)
    requires
        before.self_index != signer,
        before.self_index.0 as nat / pow2(from + 1) == signer.0 as nat / pow2(from + 1),
        before.self_index.0 as nat / pow2(from) != signer.0 as nat / pow2(from),
        0 <= to <= path.len(),
        all_match(path, derived, common_position(before.self_index, signer), to),
        key_views(after.secret_keys@) == installed(
            resized(key_views(before.secret_keys@), path.len() + 1),
            path,
            derived,
            common_position(before.self_index, signer),
            to,
        ),
        0 <= p <= path.len(),
    ensures
        after.secret_keys@.len() == path.len() + 1,
        p <= from || p > to || path[p - 1].filtered ==> (if p < before.secret_keys@.len()
            && before.secret_keys@[p] is Some {
            after.secret_keys@[p] is Some && after.secret_keys@[p]->0.bytes@
                == before.secret_keys@[p]->0.bytes@
        } else {
            after.secret_keys@[p] is None
        }),
        from < p <= to && !path[p - 1].filtered ==> {
            let keys = derived[path.subrange(from as int, p - 1).filter(
                |node: PathNode| !node.filtered,
            ).len() as int];
            &&& keys is Pair
            &&& path[p - 1].public_key is Ok
            &&& path[p - 1].public_key->Ok_0 is Some
            &&& path[p - 1].public_key->Ok_0->0.bytes@ == keys->Pair_1.bytes@
            &&& after.secret_keys@[p] is Some
            &&& after.secret_keys@[p]->0.bytes@ == keys->Pair_0.bytes@
        },
{
    law_common_nodes_stay_common(before.self_index, signer, from);
    let base = resized(key_views(before.secret_keys@), path.len() + 1);
    assert(key_views(after.secret_keys@).len() == base.len());
    let view = key_views(after.secret_keys@)[p];
    assert(view is Some <==> after.secret_keys@[p] is Some);
    if p < before.secret_keys@.len() {
        assert(base[p] == key_views(before.secret_keys@)[p]);
    }
    if from < p <= to && !path[p - 1].filtered {
        law_derived_keys_skip_filtered_nodes(path, from as int, p - 1);
        assert(key_at(path, derived, from as int, p - 1) is Ok);
        law_node_gets_the_key_of_its_public_key(
            path[p - 1],
            derived[unfiltered(path, from as int, p - 1)],
        );
    }
}

/// The key pair of a ghost is what the provider derives from the recovered seed, and if it
/// fails the failure is handed on as it is.
pub proof fn law_ghost_key_pair_comes_from_the_provider<P: CipherSuiteProvider>(
    provider: &P,
    seed: Seq<u8>,
    res: Result<(HpkeSecretKey, HpkePublicKey), MlsError>,
) -> (ikm: &[u8])
    requires
        is_derivation(provider, seed, res),
    ensures
        ikm@ == seed,
        res matches Ok(pair) ==> call_ensures(P::kem_derive, (provider, ikm), Ok(pair)),
        res matches Err(error) ==> error is CryptoProviderError && call_ensures(
            P::kem_derive,
            (provider, ikm),
            Err(error->CryptoProviderError_0),
        ),
{
    let (ikm, outcome) = choose|
        ikm: &[u8],
        outcome: Result<(HpkeSecretKey, HpkePublicKey), CryptoError>,
    |
        {
            &&& #[trigger] call_ensures(P::kem_derive, (provider, ikm), outcome)
            &&& ikm@ == seed
            &&& match outcome {
                Ok(pair) => res == Ok::<_, MlsError>(pair),
                Err(e) => res == Err::<(HpkeSecretKey, HpkePublicKey), _>(
                    MlsError::CryptoProviderError(e),
                ),
            }
        };
    ikm
}

/// Shares are seen with all that they hold.
pub proof fn law_shares_are_seen_whole(
    shares: Seq<GhostShare>,
    holders: Seq<GhostShareHolder>,
    rank: u32,
    i: int,
)
    ensures
        share_views(shares).len() == shares.len(),
        holder_views(holders).len() == holders.len(),
        0 <= i < shares.len() ==> {
            let held = share_views(shares)[i].held_by(rank);
            &&& held.ghost_leaf == shares[i].ghost_leaf
            &&& held.key_epoch == shares[i].key_epoch
            &&& held.share_id == shares[i].share_id
            &&& held.holder_rank == rank
            &&& held.share_value == shares[i].share_value@
            &&& share_views(shares)[i].ghost_leaf == shares[i].ghost_leaf
            &&& share_views(shares)[i].key_epoch == shares[i].key_epoch
            &&& share_views(shares)[i].share_id == shares[i].share_id
            &&& share_views(shares)[i].share_value == shares[i].share_value@
        },
        0 <= i < holders.len() ==> {
            &&& holder_views(holders)[i].ghost_leaf == holders[i].ghost_leaf
            &&& holder_views(holders)[i].key_epoch == holders[i].key_epoch
            &&& holder_views(holders)[i].share_id == holders[i].share_id
            &&& holder_views(holders)[i].holder_rank == holders[i].holder_rank
            &&& holder_views(holders)[i].share_value == holders[i].share_value@
        },
{
}

/// No more keys are needed behind the first that does not belong to its node: there the update
/// stops.
pub proof fn law_no_key_is_needed_behind_a_mismatch(
    path: Seq<PathNode>,
    derived: Seq<DerivedKeys>,
    from: int,
    at: int,
)
    requires
        0 <= from <= at < path.len(),
        !path[at].filtered,
        path.subrange(from, at).filter(|node: PathNode| !node.filtered).len() < derived.len(),
        ({
            let keys = derived[path.subrange(from, at).filter(
                |node: PathNode| !node.filtered,
            ).len() as int];
            ||| !(keys is Pair)
            ||| path[at].public_key is Err
            ||| path[at].public_key->Ok_0 is None
            ||| path[at].public_key->Ok_0->0.bytes@ != keys->Pair_1.bytes@
        }),
    ensures
        supplied(path, derived, from),
{
    law_derived_keys_skip_filtered_nodes(path, from, at);
    assert(key_at(path, derived, from, at) is Err);
    assert forall|i: int|
        from <= i < path.len() && !path[i].filtered && all_match(path, derived, from, i)
            implies #[trigger] unfiltered(path, from, i) < derived.len() by {
        if i <= at {
            lemma_unfiltered_grows(path, from, i, at);
        } else {
            assert(key_at(path, derived, from, at) is Ok);
        }
    }
}

} // verus!
