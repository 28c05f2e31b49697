use qtreekem::crypto::HpkePublicKey;
use qtreekem::leaf::{Capabilities, ExtensionList, LeafNode, LeafNodeSource, SigningIdentity};

#[test]
fn test_mark_as_ghost() {
    let mut leaf = LeafNode {
        public_key: HpkePublicKey { bytes: vec![0u8; 32] },
        signing_identity: Some(SigningIdentity { bytes: b"member".to_vec() }),
        capabilities: Capabilities::default(),
        leaf_node_source: LeafNodeSource::Update,
        extensions: ExtensionList::default(),
        epk: 7,
        equar: 0,
        signature: vec![1, 2, 3],
    };

    let epoch = 42u64;
    leaf.mark_as_ghost(epoch);

    assert!(leaf.is_ghost());
    assert_eq!(leaf.equar, epoch);
    assert_eq!(leaf.epk, epoch);
    assert_eq!(leaf.leaf_node_source, LeafNodeSource::GhostLeaf);
    assert!(leaf.signing_identity.is_none());
    assert_eq!(leaf.signature, vec![0u8]);
}
