//! Leaves of the ratchet tree.
//!
//! A leaf is active or a ghost. A ghost stands for a member in quarantine: it carries
//! a key whose seed the other members share, and neither an identity nor a signature.

use crate::bytes::copy_bytes;
use crate::crypto::HpkePublicKey;
use vstd::prelude::*;

verus! {

/// The place of a leaf, counted from the left.
#[derive(Clone, Copy, Debug, PartialEq, Eq, Structural)]
pub struct LeafIndex(pub u32);

/// The identity under which a member signs, in its wire form.
#[derive(Debug, PartialEq, Eq)]
pub struct SigningIdentity {
    pub bytes: Vec<u8>,
}

/// What a member's client supports, in its wire form.
#[derive(Debug, Default, PartialEq, Eq)]
pub struct Capabilities {
    pub bytes: Vec<u8>,
}

/// A list of extensions, in its wire form.
#[derive(Debug, Default, PartialEq, Eq)]
pub struct ExtensionList {
    pub bytes: Vec<u8>,
}

/// What put a leaf into the tree: a key package with its lifetime, an update, a commit
/// with its parent hash, or quarantine.
#[derive(Debug, PartialEq, Eq)]
pub enum LeafNodeSource {
    KeyPackage(Vec<u8>),
    Update,
    Commit(Vec<u8>),
    GhostLeaf,
}

/// A leaf. `epk` is the epoch of its key, and `equar` the epoch in which it went into
/// quarantine, or 0.
#[derive(Debug, PartialEq, Eq)]
pub struct LeafNode {
    pub public_key: HpkePublicKey,
    pub signing_identity: Option<SigningIdentity>,
    pub capabilities: Capabilities,
    pub leaf_node_source: LeafNodeSource,
    pub extensions: ExtensionList,
    pub epk: u64,
    pub equar: u64,
    pub signature: Vec<u8>,
}

/// The contents of a [`LeafNodeSource`].
pub enum LeafNodeSourceView {
    KeyPackage(Seq<u8>),
    Update,
    Commit(Seq<u8>),
    GhostLeaf,
}

/// The contents of a [`LeafNode`].
pub struct LeafNodeView {
    pub public_key: Seq<u8>,
    pub signing_identity: Option<Seq<u8>>,
    pub capabilities: Seq<u8>,
    pub leaf_node_source: LeafNodeSourceView,
    pub extensions: Seq<u8>,
    pub epk: u64,
    pub equar: u64,
    pub signature: Seq<u8>,
}

impl View for SigningIdentity {
    type V = Seq<u8>;

    open spec fn view(&self) -> Seq<u8> {
        self.bytes@
    }
}

impl View for Capabilities {
    type V = Seq<u8>;

    open spec fn view(&self) -> Seq<u8> {
        self.bytes@
    }
}

impl View for ExtensionList {
    type V = Seq<u8>;

    open spec fn view(&self) -> Seq<u8> {
        self.bytes@
    }
}

impl View for LeafNodeSource {
    type V = LeafNodeSourceView;

    open spec fn view(&self) -> LeafNodeSourceView {
        match self {
            LeafNodeSource::KeyPackage(lifetime) => LeafNodeSourceView::KeyPackage(lifetime@),
            LeafNodeSource::Update => LeafNodeSourceView::Update,
            LeafNodeSource::Commit(parent_hash) => LeafNodeSourceView::Commit(parent_hash@),
            LeafNodeSource::GhostLeaf => LeafNodeSourceView::GhostLeaf,
        }
    }
}

impl View for LeafNode {
    type V = LeafNodeView;

    open spec fn view(&self) -> LeafNodeView {
        LeafNodeView {
            public_key: self.public_key@,
            signing_identity: match self.signing_identity {
                Some(identity) => Some(identity@),
                None => None,
            },
            capabilities: self.capabilities@,
            leaf_node_source: self.leaf_node_source@,
            extensions: self.extensions@,
            epk: self.epk,
            equar: self.equar,
            signature: self.signature@,
        }
    }
}

impl Clone for SigningIdentity {
    fn clone(&self) -> (res: Self)
        ensures
            res@ == self@,
    {
        SigningIdentity { bytes: copy_bytes(self.bytes.as_slice()) }
    }
}

impl Clone for Capabilities {
    fn clone(&self) -> (res: Self)
        ensures
            res@ == self@,
    {
        Capabilities { bytes: copy_bytes(self.bytes.as_slice()) }
    }
}

impl Clone for ExtensionList {
    fn clone(&self) -> (res: Self)
        ensures
            res@ == self@,
    {
        ExtensionList { bytes: copy_bytes(self.bytes.as_slice()) }
    }
}

impl Clone for LeafNodeSource {
    fn clone(&self) -> (res: Self)
        ensures
            res@ == self@,
    {
        match self {
            LeafNodeSource::KeyPackage(lifetime) => LeafNodeSource::KeyPackage(
                copy_bytes(lifetime.as_slice()),
            ),
            LeafNodeSource::Update => LeafNodeSource::Update,
            LeafNodeSource::Commit(parent_hash) => LeafNodeSource::Commit(
                copy_bytes(parent_hash.as_slice()),
            ),
            LeafNodeSource::GhostLeaf => LeafNodeSource::GhostLeaf,
        }
    }
}

impl Clone for LeafNode {
    fn clone(&self) -> (res: Self)
        ensures
            res@ == self@,
    {
        let signing_identity = match &self.signing_identity {
            Some(identity) => Some(identity.clone()),
            None => None,
        };
        LeafNode {
            public_key: self.public_key.clone(),
            signing_identity,
            capabilities: self.capabilities.clone(),
            leaf_node_source: self.leaf_node_source.clone(),
            extensions: self.extensions.clone(),
            epk: self.epk,
            equar: self.equar,
            signature: copy_bytes(self.signature.as_slice()),
        }
    }
}

impl LeafNodeView {
    /// The leaf after it went into quarantine in the given epoch.
    pub open spec fn quarantined(self, epoch: u64) -> LeafNodeView {
        LeafNodeView {
            signing_identity: None,
            leaf_node_source: LeafNodeSourceView::GhostLeaf,
            epk: epoch,
            equar: epoch,
            signature: seq![0u8],
            ..self
        }
    }

    /// The leaf with another key.
    pub open spec fn with_key(self, public_key: Seq<u8>) -> LeafNodeView {
        LeafNodeView { public_key, ..self }
    }

    /// The leaf after its key was replaced in the given epoch.
    pub open spec fn refreshed(self, epoch: u64) -> LeafNodeView {
        LeafNodeView { epk: epoch, ..self }
    }

    /// Whether the leaf is in quarantine.
    pub open spec fn is_ghost(self) -> bool {
        self.equar != 0
    }
}

impl LeafNode {
    /// Whether the leaf is in quarantine.
    pub fn is_ghost(&self) -> (res: bool)
        ensures
            res == self@.is_ghost(),
    {
        self.equar != 0
    }

    /// Puts the leaf into quarantine: it keeps its key, and loses its identity and its
    /// signature.
    pub fn mark_as_ghost(&mut self, epoch: u64)
        ensures
            final(self)@ == old(self)@.quarantined(epoch),
    {
        self.equar = epoch;
        self.epk = epoch;
        self.leaf_node_source = LeafNodeSource::GhostLeaf;
        self.signing_identity = None;
        let mut signature: Vec<u8> = Vec::new();
        signature.push(0u8);
        assert(signature@ =~= seq![0u8]);
        self.signature = signature;
    }

    /// Notes that the key of a leaf in quarantine was replaced in the given epoch.
    pub fn refresh_ghost_key(&mut self, epoch: u64)
        ensures
            final(self)@ == old(self)@.refreshed(epoch),
    {
        self.epk = epoch;
    }
}

/// A leaf is in quarantine exactly if it has an epoch of quarantine. Going into quarantine
/// notes the epoch as that of the quarantine and of the key, takes the identity away, and puts
/// one byte of 0 in place of the signature; the key and all else stay. Noting a new key changes
/// the epoch of the key only.
pub proof fn law_quarantine_keeps_the_key(
    leaf: LeafNode,
    epoch: u64,
    marked: LeafNode,
    refreshed: LeafNode,
)
    requires
        marked@ == leaf@.quarantined(epoch),
        refreshed@ == leaf@.refreshed(epoch),
    ensures
        leaf@.is_ghost() <==> leaf.equar != 0,
        marked.public_key.bytes@ == leaf.public_key.bytes@,
        marked.signing_identity is None,
        marked.capabilities.bytes@ == leaf.capabilities.bytes@,
        marked.leaf_node_source is GhostLeaf,
        marked.extensions.bytes@ == leaf.extensions.bytes@,
        marked.epk == epoch,
        marked.equar == epoch,
        marked.signature@ == seq![0u8],
        refreshed.epk == epoch,
        refreshed.equar == leaf.equar,
        refreshed.public_key.bytes@ == leaf.public_key.bytes@,
        refreshed.capabilities.bytes@ == leaf.capabilities.bytes@,
        refreshed.extensions.bytes@ == leaf.extensions.bytes@,
        refreshed.signature@ == leaf.signature@,
        refreshed.signing_identity is Some <==> leaf.signing_identity is Some,
        leaf.signing_identity is Some ==> refreshed.signing_identity->0.bytes@
            == leaf.signing_identity->0.bytes@,
{
    let source = marked.leaf_node_source;
    assert(marked@.leaf_node_source == source@);
}

/// Leaves that are seen the same hold the same in every part.
pub proof fn law_leaves_are_seen_whole(a: LeafNode, b: LeafNode)
    requires
        a@ == b@,
    ensures
        a.public_key.bytes@ == b.public_key.bytes@,
        a.signing_identity is Some <==> b.signing_identity is Some,
        a.signing_identity is Some ==> a.signing_identity->0.bytes@ == b.signing_identity->0.bytes@,
        a.capabilities.bytes@ == b.capabilities.bytes@,
        a.leaf_node_source is KeyPackage <==> b.leaf_node_source is KeyPackage,
        a.leaf_node_source is KeyPackage ==> a.leaf_node_source->KeyPackage_0@
            == b.leaf_node_source->KeyPackage_0@,
        a.leaf_node_source is Update <==> b.leaf_node_source is Update,
        a.leaf_node_source is Commit <==> b.leaf_node_source is Commit,
        a.leaf_node_source is Commit ==> a.leaf_node_source->Commit_0@
            == b.leaf_node_source->Commit_0@,
        a.leaf_node_source is GhostLeaf <==> b.leaf_node_source is GhostLeaf,
        a.extensions.bytes@ == b.extensions.bytes@,
        a.epk == b.epk,
        a.equar == b.equar,
        a.signature@ == b.signature@,
{
    let source = a.leaf_node_source;
    let other = b.leaf_node_source;
    assert(source@ == other@);
}

} // verus!
