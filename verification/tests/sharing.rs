use qtreekem::ghost_sharing::{
    count_open_nodes, deal_ghost_shares, keep_first_shares, share_count, share_ghost_seeds,
    GhostSharingParams,
};
use qtreekem::ghosts::{GhostKeyReason, PendingGhostKeyDerivation};
use qtreekem::leaf::LeafIndex;
use qtreekem::secret_sharing::{recover_seed_bytes, ShareBytes};
use qtreekem::tree_kem_private::{GhostShare, TreeKemPrivate};

fn pending(leaf: u32, seed: &[u8]) -> PendingGhostKeyDerivation {
    PendingGhostKeyDerivation {
        leaf_index: LeafIndex(leaf),
        epoch: 30,
        seed: seed.to_vec(),
        reason: GhostKeyReason::NewQuarantine,
    }
}

fn params(t: u8, m: u8) -> GhostSharingParams {
    GhostSharingParams { threshold_t: t, share_count_m: m }
}

#[test]
fn three_of_eight_is_the_default() {
    assert_eq!(GhostSharingParams::default(), params(3, 8));
}

#[test]
fn shares_are_made_for_the_committer_and_the_open_nodes() {
    assert_eq!(share_count(&params(3, 8), 2), Some(3));
    assert_eq!(share_count(&params(3, 8), 6), Some(7));
    assert_eq!(share_count(&params(3, 8), 7), Some(8));
    assert_eq!(share_count(&params(3, 8), 100), Some(8));
    assert_eq!(share_count(&params(1, 1), 0), Some(1));
    assert_eq!(share_count(&params(255, 255), 254), Some(255));
    // Too few nodes, or parameters that make no sense.
    assert_eq!(share_count(&params(3, 8), 1), None);
    assert_eq!(share_count(&params(0, 8), 100), None);
    assert_eq!(share_count(&params(3, 0), 100), None);
    assert_eq!(share_count(&params(4, 3), 100), None);
}

#[test]
fn shares_go_round_the_open_nodes() {
    let split: Vec<ShareBytes> = (1..=6).map(|id| ShareBytes { id, bytes: vec![id; 2] }).collect();
    let filtered = vec![true, false, true, false];
    assert_eq!(count_open_nodes(&filtered), 2);
    let keys = vec![pending(4, b"a"), pending(5, b"b")];
    let dealt = deal_ghost_shares(&keys, &vec![split.clone(), split[..2].to_vec()], &filtered);
    let ids: Vec<Vec<(u32, u8)>> = dealt
        .iter()
        .map(|node| node.iter().map(|s| (s.ghost_leaf.0, s.share_id)).collect())
        .collect();
    assert_eq!(
        ids,
        vec![vec![], vec![(4, 2), (4, 4), (4, 6), (5, 2)], vec![], vec![(4, 3), (4, 5)]]
    );
    assert_eq!(
        dealt[3][1],
        GhostShare {
            ghost_leaf: LeafIndex(4),
            key_epoch: 30,
            share_id: 5,
            share_value: vec![5, 5]
        }
    );

    let mut private = TreeKemPrivate::new(LeafIndex(3));
    keep_first_shares(&mut private, &keys, &vec![split.clone(), split[1..].to_vec()]);
    let kept: Vec<(u32, u64, u8, u32)> = private
        .ghost_share_holders
        .iter()
        .map(|h| (h.ghost_leaf.0, h.key_epoch, h.share_id, h.holder_rank))
        .collect();
    assert_eq!(kept, vec![(4, 30, 1, 3), (5, 30, 2, 3)]);
}

#[test]
fn what_is_kept_and_dealt_recovers_the_seeds() {
    let seeds: Vec<Vec<u8>> = vec![vec![1; 32], vec![2; 48]];
    let keys = vec![pending(4, &seeds[0]), pending(9, &seeds[1])];
    let filtered = vec![false, true, false, false];
    let mut private = TreeKemPrivate::new(LeafIndex(3));
    let dealt = share_ghost_seeds(&mut private, &params(3, 8), &keys, &filtered).unwrap();
    assert_eq!(dealt.len(), 4);
    assert!(dealt[1].is_empty());
    assert_eq!(private.ghost_share_holders.len(), 2);

    for (k, key) in keys.iter().enumerate() {
        let mut all: Vec<ShareBytes> = private
            .ghost_shares_for(key.leaf_index, 30)
            .iter()
            .map(|h| ShareBytes { id: h.share_id, bytes: h.share_value.clone() })
            .collect();
        for node in &dealt {
            for s in node.iter().filter(|s| s.ghost_leaf == key.leaf_index) {
                all.push(ShareBytes { id: s.share_id, bytes: s.share_value.clone() });
            }
        }
        assert_eq!(all.len(), 4);
        for skip in 0..4 {
            let mut some = all.clone();
            some.remove(skip);
            some.reverse();
            assert_eq!(recover_seed_bytes(3, &some).unwrap(), seeds[k]);
        }
    }
}

#[test]
fn nothing_is_shared_where_it_could_not_be_recovered() {
    let keys = vec![pending(4, b"seed")];
    let mut private = TreeKemPrivate::new(LeafIndex(3));
    let dealt =
        share_ghost_seeds(&mut private, &params(3, 8), &keys, &vec![true, false, true]).unwrap();
    assert_eq!(dealt, vec![vec![], vec![], vec![]]);
    assert!(private.ghost_share_holders.is_empty());
}

#[test]
fn a_committer_alone_keeps_the_only_share() {
    let keys = vec![pending(4, b"seed")];
    let mut private = TreeKemPrivate::new(LeafIndex(3));
    let dealt = share_ghost_seeds(&mut private, &params(1, 8), &keys, &vec![true]).unwrap();
    assert_eq!(dealt, vec![vec![]]);
    assert_eq!(private.try_recover_ghost_seed(LeafIndex(4), 30, 1), Ok(b"seed".to_vec()));
}
