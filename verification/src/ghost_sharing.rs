//! How the seeds of ghost keys are shared among the members.
//!
//! The committer splits the seed of each ghost key, keeps the first share, and deals the
//! others in turn to the nodes of its update path that are not filtered out. The members
//! below a node get what was dealt to it together with the path secret.

use crate::bytes::copy_bytes;
use crate::crypto::CipherSuiteProvider;
use crate::error::{MlsError, SerializationCause};
use crate::ghosts::{
    is_derived, is_renewal, lemma_places_grow, GhostKeyReason, GhostLeafUpdate, PendingGhostKeyDerivation,
};
use crate::leaf::{LeafIndex, LeafNodeView};
use crate::secret_sharing::{
    is_share_of, is_split, readable, recovered_seed, shares_seed, split_seed_bytes,
    SecretSharingError, ShareBytes,
};
use crate::tree_kem_private::{
    holder_views, law_held_shares_recover_the_seed, picked, share_views, values_of, GhostShare,
    GhostShareHolder, GhostShareHolderView, GhostShareView, TreeKemPrivate,
};
use vstd::prelude::*;

verus! {

/// A seed is split into at most `share_count_m` shares, of which `threshold_t` recover it.
#[derive(Debug, Copy, Clone, PartialEq, Eq, Structural)]
pub struct GhostSharingParams {
    pub threshold_t: u8,
    pub share_count_m: u8,
}

impl Default for GhostSharingParams {
    fn default() -> (res: Self)
        ensures
            res.threshold_t == 3,
            res.share_count_m == 8,
    {
        GhostSharingParams { threshold_t: 3, share_count_m: 8 }
    }
}

/// How many of the first `to` nodes of a path are not filtered out.
pub open spec fn open_nodes(filtered: Seq<bool>, to: int) -> int
    decreases to,
{
    if to <= 0 {
        0
    } else {
        open_nodes(filtered, to - 1) + (if filtered[to - 1] {
            0int
        } else {
            1int
        })
    }
}

/// How many shares are made when `open` nodes of the path are not filtered out: one for
/// the committer and one for each node, but no more than wanted. No shares are made if
/// that is too few for the threshold.
pub open spec fn shares_made(params: GhostSharingParams, open: int) -> Option<u8> {
    if params.threshold_t == 0 || params.share_count_m < params.threshold_t || open + 1
        < params.threshold_t {
        None
    } else if open + 1 < params.share_count_m {
        Some((open + 1) as u8)
    } else {
        Some(params.share_count_m)
    }
}

/// How many shares are made when `open` nodes of the path are not filtered out.
pub fn share_count(params: &GhostSharingParams, open: usize) -> (res: Option<u8>)
    ensures
        res == shares_made(*params, open as int),
        res is Some ==> 0 < params.threshold_t <= res->0 <= open + 1,
{
    let desired_t: u8 = params.threshold_t;
    let desired_m: u8 = params.share_count_m;
    if desired_t == 0 || desired_m == 0 || desired_m < desired_t {
        return None;
    }
    if open < desired_t as usize - 1 {
        return None;
    }
    if open < desired_m as usize - 1 {
        Some((open + 1) as u8)
    } else {
        Some(desired_m)
    }
}

/// The share `i` of the split of a seed, as it goes to another member.
pub open spec fn dealt_share(
    pending: PendingGhostKeyDerivation,
    split: Seq<ShareBytes>,
    i: int,
) -> GhostShareView {
    GhostShareView {
        ghost_leaf: pending.leaf_index,
        key_epoch: pending.epoch,
        share_id: split[i].id,
        share_value: split[i].bytes@,
    }
}

/// What the open node with the given rank gets of the first `n` shares of one split, when
/// there are `open` such nodes. The first share stays with the committer, and the others
/// go round.
pub open spec fn dealt(
    pending: PendingGhostKeyDerivation,
    split: Seq<ShareBytes>,
    rank: int,
    open: int,
    n: int,
) -> Seq<GhostShareView>
    decreases n,
{
    if n <= 1 {
        Seq::empty()
    } else {
        let earlier = dealt(pending, split, rank, open, n - 1);
        if (n - 2) % open == rank {
            earlier.push(dealt_share(pending, split, n - 1))
        } else {
            earlier
        }
    }
}

/// What the open node with the given rank gets of the first `k` seeds.
pub open spec fn all_dealt(
    pending: Seq<PendingGhostKeyDerivation>,
    splits: Seq<Vec<ShareBytes>>,
    rank: int,
    open: int,
    k: int,
) -> Seq<GhostShareView>
    decreases k,
{
    if k <= 0 {
        Seq::empty()
    } else {
        all_dealt(pending, splits, rank, open, k - 1) + dealt(
            pending[k - 1],
            splits[k - 1]@,
            rank,
            open,
            splits[k - 1]@.len() as int,
        )
    }
}

/// What the node at place `p` of the path gets.
pub open spec fn node_shares(
    pending: Seq<PendingGhostKeyDerivation>,
    splits: Seq<Vec<ShareBytes>>,
    filtered: Seq<bool>,
    p: int,
) -> Seq<GhostShareView> {
    if filtered[p] {
        Seq::empty()
    } else {
        all_dealt(
            pending,
            splits,
            open_nodes(filtered, p),
            open_nodes(filtered, filtered.len() as int),
            splits.len() as int,
        )
    }
}

/// The first shares, in the hands of the committer.
pub open spec fn kept_shares(
    pending: Seq<PendingGhostKeyDerivation>,
    splits: Seq<Vec<ShareBytes>>,
    committer: LeafIndex,
) -> Seq<GhostShareHolderView> {
    Seq::new(
        splits.len(),
        |k: int| dealt_share(pending[k], splits[k]@, 0).held_by(committer.0),
    )
}

/// The number of open nodes grows with the path, and by no more than its length.
proof fn lemma_open_nodes(filtered: Seq<bool>, a: int, b: int)
    requires
        0 <= a <= b <= filtered.len(),
    ensures
        0 <= open_nodes(filtered, a) <= open_nodes(filtered, b) <= open_nodes(filtered, a) + (b
            - a),
    decreases b,
{
    if a < b {
        lemma_open_nodes(filtered, a, b - 1);
    } else if a > 0 {
        lemma_open_nodes(filtered, a - 1, b - 1);
    }
}

/// How many nodes of a path are not filtered out.
pub fn count_open_nodes(filtered: &Vec<bool>) -> (res: usize)
    ensures
        res == open_nodes(filtered@, filtered@.len() as int),
        res <= filtered@.len(),
{
    let n: usize = filtered.len();
    let mut open: usize = 0;
    let mut i: usize = 0;
    while i < n
        invariant
            0 <= i <= n,
            n == filtered@.len(),
            open == open_nodes(filtered@, i as int),
            open <= i,
        decreases n - i,
    {
        if !filtered[i] {
            open += 1;
        }
        i += 1;
    }
    open
}

/// Deals the shares of one seed to the open node with the given rank.
fn deal_one(
    out: &mut Vec<GhostShare>,
    pending: &PendingGhostKeyDerivation,
    split: &Vec<ShareBytes>,
    rank: usize,
    open: usize,
)
    requires
        rank < open,
    ensures
        share_views(final(out)@) == share_views(old(out)@) + dealt(
            *pending,
            split@,
            rank as int,
            open as int,
            split@.len() as int,
        ),
{
    let ghost before = share_views(out@);
    let n: usize = split.len();
    let mut i: usize = 1;
    assert(share_views(out@) =~= before + Seq::empty());
    while i < n
        invariant
            1 <= i,
            i <= n || i == 1,
            n == split@.len(),
            rank < open,
            share_views(out@) == before + dealt(
                *pending,
                split@,
                rank as int,
                open as int,
                i as int,
            ),
        decreases n - i,
    {
        let ghost earlier = out@;
        if (i - 1) % open == rank {
            out.push(
                GhostShare {
                    ghost_leaf: pending.leaf_index,
                    key_epoch: pending.epoch,
                    share_id: split[i].id,
                    share_value: copy_bytes(split[i].bytes.as_slice()),
                },
            );
            assert(share_views(out@) =~= share_views(earlier).push(
                dealt_share(*pending, split@, i as int),
            ));
        }
        assert(share_views(out@) =~= before + dealt(
            *pending,
            split@,
            rank as int,
            open as int,
            i + 1,
        ));
        i += 1;
    }
    assert(dealt(*pending, split@, rank as int, open as int, 0) =~= dealt(
        *pending,
        split@,
        rank as int,
        open as int,
        1,
    ));
}

/// Deals the shares to the nodes of a path: what stands at a place goes to the node there.
pub fn deal_ghost_shares(
    pending: &Vec<PendingGhostKeyDerivation>,
    splits: &Vec<Vec<ShareBytes>>,
    filtered: &Vec<bool>,
) -> (res: Vec<Vec<GhostShare>>)
    requires
        splits@.len() <= pending@.len(),
    ensures
        res@.len() == filtered@.len(),
        forall|p: int|
            0 <= p < filtered@.len() ==> share_views((#[trigger] res@[p])@) == node_shares(
                pending@,
                splits@,
                filtered@,
                p,
            ),
{
    let open: usize = count_open_nodes(filtered);
    let len: usize = filtered.len();
    let m: usize = splits.len();
    let mut out: Vec<Vec<GhostShare>> = Vec::new();
    let mut rank: usize = 0;
    let mut p: usize = 0;
    while p < len
        invariant
            0 <= p <= len,
            len == filtered@.len(),
            m == splits@.len(),
            m <= pending@.len(),
            open == open_nodes(filtered@, len as int),
            rank == open_nodes(filtered@, p as int),
            out@.len() == p,
            forall|q: int|
                0 <= q < p ==> share_views((#[trigger] out@[q])@) == node_shares(
                    pending@,
                    splits@,
                    filtered@,
                    q,
                ),
        decreases len - p,
    {
        let mut node: Vec<GhostShare> = Vec::new();
        proof {
            lemma_open_nodes(filtered@, p + 1, len as int);
            assert(share_views(node@) =~= Seq::empty());
        }
        if !filtered[p] {
            assert(rank < open);
            let mut k: usize = 0;
            while k < m
                invariant
                    0 <= k <= m,
                    m == splits@.len(),
                    m <= pending@.len(),
                    rank < open,
                    share_views(node@) == all_dealt(
                        pending@,
                        splits@,
                        rank as int,
                        open as int,
                        k as int,
                    ),
                decreases m - k,
            {
                deal_one(&mut node, &pending[k], &splits[k], rank, open);
                k += 1;
            }
            rank += 1;
        }
        out.push(node);
        p += 1;
    }
    out
}

/// Whether the splits are of the given seeds, with the given number of shares.
pub open spec fn are_splits(
    pending: Seq<PendingGhostKeyDerivation>,
    splits: Seq<Vec<ShareBytes>>,
    threshold: u8,
    m: u8,
) -> bool {
    &&& splits.len() == pending.len()
    &&& forall|k: int|
        0 <= k < splits.len() ==> is_whole_split(
            #[trigger] splits[k]@,
            threshold,
            m,
            pending[k].seed@,
        )
}

/// Whether the shares, with the ids from 1 to `m`, come from one split of the seed.
pub open spec fn is_whole_split(
    split: Seq<ShareBytes>,
    threshold: u8,
    m: u8,
    seed: Seq<u8>,
) -> bool {
    &&& split.len() == m
    &&& forall|i: int| 0 <= i < m ==> (#[trigger] split[i]).id == i + 1
    &&& is_split(split, threshold, seed)
}

/// Splits each seed.
fn split_seeds(pending: &Vec<PendingGhostKeyDerivation>, threshold: u8, m: u8) -> (res: Result<
    Vec<Vec<ShareBytes>>,
    MlsError,
>)
    requires
        0 < threshold <= m,
    ensures
        res is Ok,
        are_splits(pending@, res->Ok_0@, threshold, m),
{
    let n: usize = pending.len();
    let mut splits: Vec<Vec<ShareBytes>> = Vec::new();
    let mut k: usize = 0;
    while k < n
        invariant
            0 <= k <= n,
            n == pending@.len(),
            0 < threshold <= m,
            splits@.len() == k,
            forall|j: int|
                0 <= j < k ==> is_whole_split(
                    #[trigger] splits@[j]@,
                    threshold,
                    m,
                    pending@[j].seed@,
                ),
        decreases n - k,
    {
        match split_seed_bytes(pending[k].seed.as_slice(), threshold, m) {
            Ok(split) => {
                splits.push(split);
            },
            Err(e) => {
                return Err(MlsError::SerializationError(SerializationCause::SecretSharing(e)));
            },
        }
        k += 1;
    }
    Ok(splits)
}

/// Keeps the first share of each split in the committer's hands.
pub fn keep_first_shares(
    private: &mut TreeKemPrivate,
    pending: &Vec<PendingGhostKeyDerivation>,
    splits: &Vec<Vec<ShareBytes>>,
)
    requires
        splits@.len() <= pending@.len(),
        forall|k: int| 0 <= k < splits@.len() ==> (#[trigger] splits@[k])@.len() > 0,
    ensures
        holder_views(final(private).ghost_share_holders@) == holder_views(
            old(private).ghost_share_holders@,
        ) + kept_shares(pending@, splits@, old(private).self_index),
        final(private).self_index == old(private).self_index,
        final(private).secret_keys == old(private).secret_keys,
        final(private).received_ghost_shares == old(private).received_ghost_shares,
{
    let ghost before = holder_views(private.ghost_share_holders@);
    let ghost kept = kept_shares(pending@, splits@, private.self_index);
    let rank: u32 = private.self_index.0;
    let n: usize = splits.len();
    let mut k: usize = 0;
    assert(holder_views(private.ghost_share_holders@) =~= before + kept.take(0));
    while k < n
        invariant
            0 <= k <= n,
            n == splits@.len(),
            n <= pending@.len(),
            forall|k: int| 0 <= k < splits@.len() ==> (#[trigger] splits@[k])@.len() > 0,
            kept == kept_shares(pending@, splits@, private.self_index),
            rank == private.self_index.0,
            holder_views(private.ghost_share_holders@) == before + kept.take(k as int),
            private.self_index == old(private).self_index,
            private.secret_keys == old(private).secret_keys,
            private.received_ghost_shares == old(private).received_ghost_shares,
        decreases n - k,
    {
        let ghost earlier = private.ghost_share_holders@;
        assert(splits@[k as int]@.len() > 0);
        let first: &ShareBytes = &splits[k][0];
        private.ghost_share_holders.push(
            GhostShareHolder {
                ghost_leaf: pending[k].leaf_index,
                key_epoch: pending[k].epoch,
                share_id: first.id,
                holder_rank: rank,
                share_value: copy_bytes(first.bytes.as_slice()),
            },
        );
        assert(holder_views(private.ghost_share_holders@) =~= holder_views(earlier).push(
            kept[k as int],
        ));
        assert(before + kept.take(k + 1) =~= (before + kept.take(k as int)).push(kept[k as int]));
        k += 1;
    }
    assert(kept.take(n as int) =~= kept);
}

/// Whether the seeds were shared as the parameters ask: what was kept is in `after`, and
/// what was dealt in `dealt`.
pub open spec fn is_sharing(
    before: TreeKemPrivate,
    after: TreeKemPrivate,
    params: GhostSharingParams,
    pending: Seq<PendingGhostKeyDerivation>,
    filtered: Seq<bool>,
    dealt: Seq<Vec<GhostShare>>,
) -> bool {
    &&& dealt.len() == filtered.len()
    &&& match shares_made(params, open_nodes(filtered, filtered.len() as int)) {
        None => {
            &&& forall|p: int| 0 <= p < filtered.len() ==> (#[trigger] dealt[p])@.len() == 0
            &&& holder_views(after.ghost_share_holders@) == holder_views(
                before.ghost_share_holders@,
            )
        },
        Some(m) => exists|splits: Seq<Vec<ShareBytes>>|
            {
                &&& #[trigger] are_splits(pending, splits, params.threshold_t, m)
                &&& forall|p: int|
                    0 <= p < filtered.len() ==> share_views((#[trigger] dealt[p])@) == node_shares(
                        pending,
                        splits,
                        filtered,
                        p,
                    )
                &&& holder_views(after.ghost_share_holders@) == holder_views(
                    before.ghost_share_holders@,
                ) + kept_shares(pending, splits, before.self_index)
            },
    }
}

/// Shares the seeds of ghost keys: splits each, keeps the first share of each in the
/// committer's hands, and deals the others to the nodes of the committer's path. Where no
/// shares can be made nothing is kept, and nothing is dealt.
pub fn share_ghost_seeds(
    private: &mut TreeKemPrivate,
    params: &GhostSharingParams,
    pending: &Vec<PendingGhostKeyDerivation>,
    filtered: &Vec<bool>,
) -> (res: Result<Vec<Vec<GhostShare>>, MlsError>)
    ensures
        res is Ok,
        is_sharing(
            *old(private),
            *final(private),
            *params,
            pending@,
            filtered@,
            res->Ok_0@,
        ),
        final(private).self_index == old(private).self_index,
        final(private).secret_keys == old(private).secret_keys,
        final(private).received_ghost_shares == old(private).received_ghost_shares,
{
    let open: usize = count_open_nodes(filtered);
    match share_count(params, open) {
        None => {
            let none: Vec<Vec<ShareBytes>> = Vec::new();
            let dealt_none: Vec<Vec<GhostShare>> = deal_ghost_shares(pending, &none, filtered);
            assert forall|p: int| 0 <= p < filtered@.len() implies (
            #[trigger] dealt_none@[p])@.len() == 0 by {
                assert(share_views(dealt_none@[p]@) == node_shares(
                    pending@,
                    none@,
                    filtered@,
                    p,
                ));
                assert(share_views(dealt_none@[p]@).len() == 0);
            }
            Ok(dealt_none)
        },
        Some(m) => match split_seeds(pending, params.threshold_t, m) {
            Err(e) => Err(e),
            Ok(splits) => {
                assert forall|k: int| 0 <= k < splits@.len() implies (
                #[trigger] splits@[k])@.len() > 0 by {
                    assert(is_whole_split(
                        splits@[k]@,
                        params.threshold_t,
                        m,
                        pending@[k].seed@,
                    ));
                }
                keep_first_shares(private, pending, &splits);
                assert(are_splits(pending@, splits@, params.threshold_t, m));
                Ok(deal_ghost_shares(pending, &splits, filtered))
            },
        },
    }
}

/// What one split deals to a node are shares of that split, and never the first.
proof fn lemma_dealt_from_split(
    pending: PendingGhostKeyDerivation,
    split: Seq<ShareBytes>,
    rank: int,
    open: int,
    n: int,
    share: GhostShareView,
) -> (i: int)
    requires
        n <= split.len(),
        dealt(pending, split, rank, open, n).contains(share),
    ensures
        1 <= i < n,
        (i - 1) % open == rank,
        share == dealt_share(pending, split, i),
    decreases n,
{
    let all = dealt(pending, split, rank, open, n);
    let j = all.index_of(share);
    let earlier = dealt(pending, split, rank, open, n - 1);
    if j < earlier.len() {
        assert(earlier[j] == share);
        lemma_dealt_from_split(pending, split, rank, open, n - 1, share)
    } else {
        n - 1
    }
}

/// What all splits deal to a node are shares of them.
proof fn lemma_all_dealt_from_splits(
    pending: Seq<PendingGhostKeyDerivation>,
    splits: Seq<Vec<ShareBytes>>,
    rank: int,
    open: int,
    n: int,
    share: GhostShareView,
) -> (ki: (int, int))
    requires
        n <= splits.len(),
        all_dealt(pending, splits, rank, open, n).contains(share),
    ensures
        0 <= ki.0 < n,
        1 <= ki.1 < splits[ki.0]@.len(),
        (ki.1 - 1) % open == rank,
        share == dealt_share(pending[ki.0], splits[ki.0]@, ki.1),
    decreases n,
{
    let all = all_dealt(pending, splits, rank, open, n);
    let earlier = all_dealt(pending, splits, rank, open, n - 1);
    let len = splits[n - 1]@.len() as int;
    let last = dealt(pending[n - 1], splits[n - 1]@, rank, open, len);
    let j = all.index_of(share);
    if j < earlier.len() {
        assert(earlier[j] == share);
        lemma_all_dealt_from_splits(pending, splits, rank, open, n - 1, share)
    } else {
        assert(last[j - earlier.len()] == share);
        let i = lemma_dealt_from_split(
            pending[n - 1],
            splits[n - 1]@,
            rank,
            open,
            len,
            share,
        );
        (n - 1, i)
    }
}

/// Each share that is dealt to a node is a share of one of the seeds, and never the first
/// one, which the committer keeps. Nothing is dealt to a node that is filtered out.
pub proof fn law_dealt_shares_come_from_the_splits(
    pending: Seq<PendingGhostKeyDerivation>,
    splits: Seq<Vec<ShareBytes>>,
    filtered: Seq<bool>,
    p: int,
    share: GhostShareView,
)
    requires
        0 <= p < filtered.len(),
        node_shares(pending, splits, filtered, p).contains(share),
    ensures
        !filtered[p],
        exists|k: int, i: int|
            0 <= k < splits.len() && 1 <= i < splits[k]@.len() && share == #[trigger] dealt_share(
                pending[k],
                splits[k]@,
                i,
            ),
{
    let ki = lemma_all_dealt_from_splits(
        pending,
        splits,
        open_nodes(filtered, p),
        open_nodes(filtered, filtered.len() as int),
        splits.len() as int,
        share,
    );
    assert(share == dealt_share(pending[ki.0], splits[ki.0]@, ki.1));
}

/// One split deals share `i` to the node whose turn it is.
proof fn lemma_share_is_dealt(
    pending: PendingGhostKeyDerivation,
    split: Seq<ShareBytes>,
    open: int,
    n: int,
    i: int,
)
    requires
        1 <= i < n <= split.len(),
    ensures
        dealt(pending, split, (i - 1) % open, open, n).contains(dealt_share(pending, split, i)),
    decreases n,
{
    let rank = (i - 1) % open;
    let earlier = dealt(pending, split, rank, open, n - 1);
    let all = dealt(pending, split, rank, open, n);
    if i < n - 1 {
        lemma_share_is_dealt(pending, split, open, n - 1, i);
        let j = earlier.index_of(dealt_share(pending, split, i));
        assert(all[j] == earlier[j]);
    } else {
        assert(all[all.len() - 1] == dealt_share(pending, split, i));
    }
}

/// There is an open node of each rank.
proof fn lemma_node_of_rank(filtered: Seq<bool>, rank: int, to: int) -> (p: int)
    requires
        0 <= to <= filtered.len(),
        0 <= rank < open_nodes(filtered, to),
    ensures
        0 <= p < to,
        !filtered[p],
        open_nodes(filtered, p) == rank,
    decreases to,
{
    if rank < open_nodes(filtered, to - 1) {
        lemma_node_of_rank(filtered, rank, to - 1)
    } else {
        lemma_open_nodes(filtered, to - 1, to);
        to - 1
    }
}

/// No share is lost: each share but the first of each split is dealt to a node of the path
/// that is not filtered out.
pub proof fn law_every_share_is_dealt(
    pending: Seq<PendingGhostKeyDerivation>,
    splits: Seq<Vec<ShareBytes>>,
    filtered: Seq<bool>,
    k: int,
    i: int,
)
    requires
        0 <= k < splits.len(),
        1 <= i < splits[k]@.len(),
        open_nodes(filtered, filtered.len() as int) > 0,
    ensures
        exists|p: int|
            0 <= p < filtered.len() && !filtered[p] && (#[trigger] node_shares(
                pending,
                splits,
                filtered,
                p,
            )).contains(dealt_share(pending[k], splits[k]@, i)),
{
    let open = open_nodes(filtered, filtered.len() as int);
    let rank = (i - 1) % open;
    let share = dealt_share(pending[k], splits[k]@, i);
    let p = lemma_node_of_rank(filtered, rank, filtered.len() as int);
    lemma_share_is_dealt(pending[k], splits[k]@, open, splits[k]@.len() as int, i);
    lemma_contained_in_all(pending, splits, rank, open, k, splits.len() as int, share);
    assert(node_shares(pending, splits, filtered, p).contains(share));
}

/// What one split deals to a node is among what all splits deal to it.
proof fn lemma_contained_in_all(
    pending: Seq<PendingGhostKeyDerivation>,
    splits: Seq<Vec<ShareBytes>>,
    rank: int,
    open: int,
    k: int,
    n: int,
    share: GhostShareView,
)
    requires
        0 <= k < n <= splits.len(),
        dealt(pending[k], splits[k]@, rank, open, splits[k]@.len() as int).contains(share),
    ensures
        all_dealt(pending, splits, rank, open, n).contains(share),
    decreases n,
{
    let all = all_dealt(pending, splits, rank, open, n);
    let earlier = all_dealt(pending, splits, rank, open, n - 1);
    if k < n - 1 {
        lemma_contained_in_all(pending, splits, rank, open, k, n - 1, share);
        let j = earlier.index_of(share);
        assert(all[j] == share);
    } else {
        let last = dealt(pending[k], splits[k]@, rank, open, splits[k]@.len() as int);
        let j = last.index_of(share);
        assert(all[earlier.len() + j] == share);
    }
}

/// Whoever holds shares of a seed that a commit shared, under as many distinct ids as the
/// threshold asks for, recovers the seed. It does not matter which shares they are, whether
/// the committer kept them or dealt them, and in which order they came together.
pub proof fn law_shares_of_a_commit_recover(
    pending: PendingGhostKeyDerivation,
    split: Seq<ShareBytes>,
    threshold: u8,
    m: u8,
    holders: Seq<GhostShareHolderView>,
    ids: Set<u8>,
)
    requires
        threshold > 0,
        is_whole_split(split, threshold, m, pending.seed@),
        forall|j: int|
            0 <= j < holders.len() && (#[trigger] holders[j]).is_for(
                pending.leaf_index,
                pending.epoch,
            ) ==> exists|i: int|
                0 <= i < m && holders[j].share_id == (#[trigger] split[i]).id
                    && holders[j].share_value == split[i].bytes@,
        ids.finite(),
        ids.len() >= threshold,
        forall|id: u8| #[trigger]
            ids.contains(id) ==> exists|j: int|
                0 <= j < holders.len() && (#[trigger] holders[j]).is_for(
                    pending.leaf_index,
                    pending.epoch,
                ) && holders[j].share_id == id,
    ensures
        ({
            let values = values_of(
                picked(holders, pending.leaf_index, pending.epoch, threshold as int),
            );
            &&& readable(values)
            &&& recovered_seed(threshold, values) == Ok::<_, SecretSharingError>(pending.seed@)
        }),
{
    let polynomials = choose|polynomials: Seq<Seq<u8>>| #[trigger]
        shares_seed(polynomials, threshold, pending.seed@) && forall|i: int|
            0 <= i < split.len() ==> is_share_of(
                polynomials,
                (#[trigger] split[i]).id,
                split[i].bytes@,
            );
    assert forall|j: int|
        0 <= j < holders.len() && (#[trigger] holders[j]).is_for(
            pending.leaf_index,
            pending.epoch,
        ) implies is_share_of(polynomials, holders[j].share_id, holders[j].share_value) by {
        let i = choose|i: int|
            0 <= i < m && holders[j].share_id == (#[trigger] split[i]).id && holders[j].share_value
                == split[i].bytes@;
        assert(is_share_of(polynomials, split[i].id, split[i].bytes@));
    }
    law_held_shares_recover_the_seed(
        holders,
        pending.leaf_index,
        pending.epoch,
        threshold,
        pending.seed@,
        polynomials,
        ids,
    );
}

/// A member that comes back from quarantine gets the key of its ghost: with shares under as
/// many distinct ids as the threshold asks for it recovers the very seed from which the
/// provider derived the public key in the leaf that the commit put in its place.
pub proof fn law_member_recovers_its_ghost_key<P: CipherSuiteProvider>(
    provider: &P,
    renewal: (LeafIndex, LeafNodeView, GhostKeyReason),
    epoch: u64,
    pending: PendingGhostKeyDerivation,
    update: GhostLeafUpdate,
    split: Seq<ShareBytes>,
    threshold: u8,
    m: u8,
    holders: Seq<GhostShareHolderView>,
    ids: Set<u8>,
)
    requires
        is_renewal(provider, renewal, epoch, pending, update),
        threshold > 0,
        is_whole_split(split, threshold, m, pending.seed@),
        forall|j: int|
            0 <= j < holders.len() && (#[trigger] holders[j]).is_for(renewal.0, epoch)
                ==> exists|i: int|
                0 <= i < m && holders[j].share_id == (#[trigger] split[i]).id
                    && holders[j].share_value == split[i].bytes@,
        ids.finite(),
        ids.len() >= threshold,
        forall|id: u8| #[trigger]
            ids.contains(id) ==> exists|j: int|
                0 <= j < holders.len() && (#[trigger] holders[j]).is_for(renewal.0, epoch)
                    && holders[j].share_id == id,
    ensures
        ({
            let values = values_of(picked(holders, renewal.0, epoch, threshold as int));
            &&& readable(values)
            &&& recovered_seed(threshold, values) matches Ok(seed)
            &&& is_derived(provider, seed, update.leaf_node@.public_key)
        }),
{
    law_shares_of_a_commit_recover(pending, split, threshold, m, holders, ids);
}

/// The open nodes of a path are those that are not filtered out.
pub proof fn law_open_nodes_are_those_not_filtered_out(filtered: Seq<bool>, to: int)
    requires
        0 <= to <= filtered.len(),
    ensures
        open_nodes(filtered, to) == filtered.take(to).filter(|out: bool| !out).len(),
    decreases to,
{
    reveal(Seq::filter);
    if to > 0 {
        law_open_nodes_are_those_not_filtered_out(filtered, to - 1);
        assert(filtered.take(to).drop_last() =~= filtered.take(to - 1));
        assert(filtered.take(to).last() == filtered[to - 1]);
    }
}

/// Shares are made exactly if the threshold is not 0, and neither the number of shares that are
/// wanted nor the number of those that can hold one, the committer and the open nodes, is below
/// it. There are as many as both allow.
pub proof fn law_as_many_shares_as_can_be_held(params: GhostSharingParams, open: int)
    requires
        open >= 0,
    ensures
        shares_made(params, open) is Some <==> 0 < params.threshold_t && params.threshold_t
            <= params.share_count_m && params.threshold_t <= open + 1,
        shares_made(params, open) matches Some(m) ==> params.threshold_t <= m && m
            <= params.share_count_m && m <= open + 1 && (m == params.share_count_m || m == open
            + 1),
{
}

/// Which shares of a split go to the open node with the given rank, by their places: in order,
/// all but the first whose turn is that of the node, when the shares go round the nodes. They go
/// with the leaf and the epoch of the key, their id and their bytes.
pub proof fn law_shares_go_round(
    pending: PendingGhostKeyDerivation,
    split: Seq<ShareBytes>,
    rank: int,
    open: int,
    n: int,
) -> (at: Seq<int>)
    requires
        0 <= rank < open,
        0 <= n <= split.len(),
    ensures
        dealt(pending, split, rank, open, n).len() == at.len(),
        forall|j: int, k: int| 0 <= j < k < at.len() ==> #[trigger] at[j] < #[trigger] at[k],
        forall|j: int|
            0 <= j < at.len() ==> 1 <= #[trigger] at[j] < n && {
                let share = dealt(pending, split, rank, open, n)[j];
                &&& share.ghost_leaf == pending.leaf_index
                &&& share.key_epoch == pending.epoch
                &&& share.share_id == split[at[j]].id
                &&& share.share_value == split[at[j]].bytes@
            },
        forall|i: int| #[trigger] at.contains(i) <==> 1 <= i < n && (i - 1) % open == rank,
    decreases n,
{
    let all = dealt(pending, split, rank, open, n);
    if n <= 1 {
        let at: Seq<int> = Seq::empty();
        assert forall|i: int| !(#[trigger] at.contains(i)) by {}
        at
    } else {
        let earlier = dealt(pending, split, rank, open, n - 1);
        let old_at = law_shares_go_round(pending, split, rank, open, n - 1);
        let at = if (n - 2) % open == rank {
            old_at.push(n - 1)
        } else {
            old_at
        };
        lemma_places_grow(old_at, at, n - 1);
        assert forall|i: int| #[trigger]
            at.contains(i) <==> 1 <= i < n && (i - 1) % open == rank by {
            assert(old_at.contains(i) <==> 1 <= i < n - 1 && (i - 1) % open == rank);
        }
        assert forall|j: int| 0 <= j < at.len() implies 1 <= #[trigger] at[j] < n && {
            let share = all[j];
            &&& share.ghost_leaf == pending.leaf_index
            &&& share.key_epoch == pending.epoch
            &&& share.share_id == split[at[j]].id
            &&& share.share_value == split[at[j]].bytes@
        } by {
            if j < old_at.len() {
                assert(at[j] == old_at[j]);
                assert(all[j] == earlier[j]);
            }
        }
        at
    }
}

/// A node gets the shares of the seeds one seed after the other, in the order of the seeds, and
/// nothing if it is filtered out.
pub proof fn law_nodes_get_shares_seed_by_seed(
    pending: Seq<PendingGhostKeyDerivation>,
    splits: Seq<Vec<ShareBytes>>,
    filtered: Seq<bool>,
    p: int,
)
    requires
        0 <= p < filtered.len(),
    ensures
        filtered[p] ==> node_shares(pending, splits, filtered, p).len() == 0,
        !filtered[p] ==> node_shares(pending, splits, filtered, p) == Seq::new(
            splits.len(),
            |k: int|
                dealt(
                    pending[k],
                    splits[k]@,
                    filtered.take(p).filter(|out: bool| !out).len() as int,
                    filtered.filter(|out: bool| !out).len() as int,
                    splits[k]@.len() as int,
                ),
        ).flatten(),
{
    law_open_nodes_are_those_not_filtered_out(filtered, p);
    law_open_nodes_are_those_not_filtered_out(filtered, filtered.len() as int);
    assert(filtered.take(filtered.len() as int) =~= filtered);
    lemma_all_dealt_flat(
        pending,
        splits,
        filtered.take(p).filter(|out: bool| !out).len() as int,
        filtered.filter(|out: bool| !out).len() as int,
        splits.len() as int,
    );
}

/// What all splits deal to a node, one behind the other.
proof fn lemma_all_dealt_flat(
    pending: Seq<PendingGhostKeyDerivation>,
    splits: Seq<Vec<ShareBytes>>,
    rank: int,
    open: int,
    n: int,
)
    requires
        0 <= n <= splits.len(),
    ensures
        all_dealt(pending, splits, rank, open, n) == Seq::new(
            n as nat,
            |k: int| dealt(pending[k], splits[k]@, rank, open, splits[k]@.len() as int),
        ).flatten(),
    decreases n,
{
    let parts = Seq::new(
        n as nat,
        |k: int| dealt(pending[k], splits[k]@, rank, open, splits[k]@.len() as int),
    );
    if n > 0 {
        let earlier = Seq::new(
            (n - 1) as nat,
            |k: int| dealt(pending[k], splits[k]@, rank, open, splits[k]@.len() as int),
        );
        lemma_all_dealt_flat(pending, splits, rank, open, n - 1);
        let last = dealt(pending[n - 1], splits[n - 1]@, rank, open, splits[n - 1]@.len() as int);
        assert(parts =~= earlier.push(last));
        earlier.lemma_flatten_push(last);
    } else {
        assert(parts.flatten() =~= Seq::empty());
    }
}

/// With no more shares than holders, a node gets at most one of a split: the one behind its
/// rank.
proof fn lemma_one_share_each(
    pending: PendingGhostKeyDerivation,
    split: Seq<ShareBytes>,
    rank: int,
    open: int,
    n: int,
)
    requires
        0 <= rank < open,
        n <= open + 1,
    ensures
        dealt(pending, split, rank, open, n) == (if rank + 1 < n {
            seq![dealt_share(pending, split, rank + 1)]
        } else {
            Seq::empty()
        }),
    decreases n,
{
    if n > 1 {
        lemma_one_share_each(pending, split, rank, open, n - 1);
        vstd::arithmetic::div_mod::lemma_small_mod((n - 2) as nat, open as nat);
    }
}

/// What all splits deal to a node, if each deals one share or none.
proof fn lemma_one_share_of_each_seed(
    pending: Seq<PendingGhostKeyDerivation>,
    splits: Seq<Vec<ShareBytes>>,
    rank: int,
    open: int,
    m: int,
    n: int,
)
    requires
        0 <= rank < open,
        m <= open + 1,
        0 <= n <= splits.len(),
        forall|k: int| 0 <= k < splits.len() ==> (#[trigger] splits[k])@.len() == m,
    ensures
        all_dealt(pending, splits, rank, open, n) == (if rank + 1 < m {
            Seq::new(n as nat, |k: int| dealt_share(pending[k], splits[k]@, rank + 1))
        } else {
            Seq::empty()
        }),
    decreases n,
{
    if n > 0 {
        lemma_one_share_of_each_seed(pending, splits, rank, open, m, n - 1);
        assert(splits[n - 1]@.len() == m);
        lemma_one_share_each(pending[n - 1], splits[n - 1]@, rank, open, m);
    }
    if rank + 1 < m {
        assert(all_dealt(pending, splits, rank, open, n) =~= Seq::new(
            n as nat,
            |k: int| dealt_share(pending[k], splits[k]@, rank + 1),
        ));
    } else {
        assert(all_dealt(pending, splits, rank, open, n) =~= Seq::empty());
    }
}

/// How the seeds of a commit are shared, if they are. Each is split into as many shares as the
/// committer and the open nodes of its path can hold, with the ids from 1 on. The committer
/// keeps the first share of each, behind the shares that it holds. The open node with `r` open
/// nodes below it gets the share with the id `r + 2` of each seed, in the order of the seeds, or
/// nothing if there is no such share. No two shares of a seed go to one node.
pub proof fn law_each_node_gets_one_share_of_each_seed(
    before: TreeKemPrivate,
    after: TreeKemPrivate,
    params: GhostSharingParams,
    pending: Seq<PendingGhostKeyDerivation>,
    filtered: Seq<bool>,
    dealt_shares: Seq<Vec<GhostShare>>,
) -> (splits: Seq<Vec<ShareBytes>>)
    requires
        is_sharing(before, after, params, pending, filtered, dealt_shares),
        0 < params.threshold_t,
        params.threshold_t <= params.share_count_m,
        params.threshold_t <= filtered.filter(|out: bool| !out).len() + 1,
    ensures
        dealt_shares.len() == filtered.len(),
        splits.len() == pending.len(),
        ({
            let open = filtered.filter(|out: bool| !out).len() as int;
            let m = if params.share_count_m < open + 1 {
                params.share_count_m as int
            } else {
                open + 1
            };
            let held = before.ghost_share_holders@.len() as int;
            &&& forall|k: int| 0 <= k < splits.len() ==> (#[trigger] splits[k])@.len() == m
            &&& forall|k: int|
                0 <= k < splits.len() ==> is_split(
                    #[trigger] splits[k]@,
                    params.threshold_t,
                    pending[k].seed@,
                )
            &&& forall|k: int, i: int|
                0 <= k < splits.len() && 0 <= i < m ==> (#[trigger] splits[k]@[i]).id == i + 1
            &&& after.ghost_share_holders@.len() == held + pending.len()
            &&& forall|j: int|
                0 <= j < held ==> (#[trigger] after.ghost_share_holders@[j])@
                    == before.ghost_share_holders@[j]@
            &&& forall|k: int|
                0 <= k < pending.len() ==> {
                    let share = #[trigger] after.ghost_share_holders@[held + k];
                    &&& share.ghost_leaf == pending[k].leaf_index
                    &&& share.key_epoch == pending[k].epoch
                    &&& share.share_id == 1
                    &&& share.holder_rank == before.self_index.0
                    &&& share.share_value@ == splits[k]@[0].bytes@
                }
            &&& forall|p: int|
                0 <= p < filtered.len() ==> {
                    let r = filtered.take(p).filter(|out: bool| !out).len() as int;
                    (#[trigger] dealt_shares[p])@.len() == (if filtered[p] || r + 1 >= m {
                        0
                    } else {
                        pending.len()
                    })
                }
            &&& forall|p: int, k: int|
                0 <= p < filtered.len() && 0 <= k < dealt_shares[p]@.len() ==> {
                    let r = filtered.take(p).filter(|out: bool| !out).len() as int;
                    let share = #[trigger] dealt_shares[p]@[k];
                    &&& share.ghost_leaf == pending[k].leaf_index
                    &&& share.key_epoch == pending[k].epoch
                    &&& share.share_id == r + 2
                    &&& share.share_value@ == splits[k]@[r + 1].bytes@
                }
        }),
{
    let open = open_nodes(filtered, filtered.len() as int);
    law_open_nodes_are_those_not_filtered_out(filtered, filtered.len() as int);
    assert(filtered.take(filtered.len() as int) =~= filtered);
    lemma_open_nodes(filtered, 0, filtered.len() as int);
    law_as_many_shares_as_can_be_held(params, open);
    let m = shares_made(params, open)->0;
    let splits = choose|splits: Seq<Vec<ShareBytes>>|
        {
            &&& #[trigger] are_splits(pending, splits, params.threshold_t, m)
            &&& forall|p: int|
                0 <= p < filtered.len() ==> share_views((#[trigger] dealt_shares[p])@)
                    == node_shares(pending, splits, filtered, p)
            &&& holder_views(after.ghost_share_holders@) == holder_views(
                before.ghost_share_holders@,
            ) + kept_shares(pending, splits, before.self_index)
        };
    assert forall|k: int| 0 <= k < splits.len() implies (#[trigger] splits[k])@.len() == m by {
        assert(is_whole_split(splits[k]@, params.threshold_t, m, pending[k].seed@));
    }
    assert forall|k: int, i: int| 0 <= k < splits.len() && 0 <= i < m implies (
    #[trigger] splits[k]@[i]).id == i + 1 by {
        assert(is_whole_split(splits[k]@, params.threshold_t, m, pending[k].seed@));
    }
    let held = before.ghost_share_holders@.len() as int;
    let kept = kept_shares(pending, splits, before.self_index);
    assert(holder_views(after.ghost_share_holders@).len() == held + kept.len());
    assert forall|j: int| 0 <= j < held implies (#[trigger] after.ghost_share_holders@[j])@
        == before.ghost_share_holders@[j]@ by {
        assert(holder_views(after.ghost_share_holders@)[j] == holder_views(
            before.ghost_share_holders@,
        )[j]);
    }
    assert forall|k: int| 0 <= k < pending.len() implies {
        let share = #[trigger] after.ghost_share_holders@[held + k];
        &&& share.ghost_leaf == pending[k].leaf_index
        &&& share.key_epoch == pending[k].epoch
        &&& share.share_id == 1
        &&& share.holder_rank == before.self_index.0
        &&& share.share_value@ == splits[k]@[0].bytes@
    } by {
        assert(holder_views(after.ghost_share_holders@)[held + k] == kept[k]);
        assert(splits[k]@[0].id == 1);
    }
    assert forall|p: int| 0 <= p < filtered.len() implies share_views((
    #[trigger] dealt_shares[p])@) == (if filtered[p] || filtered.take(p).filter(
        |out: bool| !out,
    ).len() + 1 >= m {
        Seq::empty()
    } else {
        Seq::new(
            pending.len(),
            |k: int|
                dealt_share(
                    pending[k],
                    splits[k]@,
                    (filtered.take(p).filter(|out: bool| !out).len() + 1) as int,
                ),
        )
    }) by {
        law_open_nodes_are_those_not_filtered_out(filtered, p);
        if !filtered[p] {
            lemma_open_nodes(filtered, p + 1, filtered.len() as int);
            lemma_one_share_of_each_seed(
                pending,
                splits,
                open_nodes(filtered, p),
                open,
                m as int,
                splits.len() as int,
            );
        }
    }
    assert forall|p: int| 0 <= p < filtered.len() implies {
        let r = filtered.take(p).filter(|out: bool| !out).len() as int;
        (#[trigger] dealt_shares[p])@.len() == (if filtered[p] || r + 1 >= m {
            0
        } else {
            pending.len()
        })
    } by {
        assert(share_views(dealt_shares[p]@).len() == dealt_shares[p]@.len());
    }
    assert forall|p: int, k: int|
        0 <= p < filtered.len() && 0 <= k < dealt_shares[p]@.len() implies {
        let r = filtered.take(p).filter(|out: bool| !out).len() as int;
        let share = #[trigger] dealt_shares[p]@[k];
        &&& share.ghost_leaf == pending[k].leaf_index
        &&& share.key_epoch == pending[k].epoch
        &&& share.share_id == r + 2
        &&& share.share_value@ == splits[k]@[r + 1].bytes@
    } by {
        let r = filtered.take(p).filter(|out: bool| !out).len() as int;
        assert(share_views(dealt_shares[p]@).len() == dealt_shares[p]@.len());
        assert(share_views(dealt_shares[p]@)[k] == dealt_shares[p]@[k]@);
        assert(splits[k]@[r + 1].id == r + 2);
    }
    splits
}

/// Where no shares can be made nothing is dealt, and what was held stays.
pub proof fn law_nothing_is_shared_below_the_threshold(
    before: TreeKemPrivate,
    after: TreeKemPrivate,
    params: GhostSharingParams,
    pending: Seq<PendingGhostKeyDerivation>,
    filtered: Seq<bool>,
    dealt_shares: Seq<Vec<GhostShare>>,
    p: int,
)
    requires
        is_sharing(before, after, params, pending, filtered, dealt_shares),
        params.threshold_t == 0 || params.share_count_m < params.threshold_t
            || params.threshold_t > filtered.filter(|out: bool| !out).len() + 1,
        0 <= p < filtered.len(),
    ensures
        dealt_shares.len() == filtered.len(),
        dealt_shares[p]@.len() == 0,
        after.ghost_share_holders@.len() == before.ghost_share_holders@.len(),
        forall|j: int|
            0 <= j < before.ghost_share_holders@.len() ==> (
            #[trigger] after.ghost_share_holders@[j])@ == before.ghost_share_holders@[j]@,
{
    law_open_nodes_are_those_not_filtered_out(filtered, filtered.len() as int);
    assert(filtered.take(filtered.len() as int) =~= filtered);
    assert(holder_views(after.ghost_share_holders@).len() == after.ghost_share_holders@.len());
    assert forall|j: int| 0 <= j < before.ghost_share_holders@.len() implies (
    #[trigger] after.ghost_share_holders@[j])@ == before.ghost_share_holders@[j]@ by {
        assert(holder_views(after.ghost_share_holders@)[j] == holder_views(
            before.ghost_share_holders@,
        )[j]);
    }
}

} // verus!
