//! Building a commit: which proposals it holds by value, and what it changes besides.

use crate::bytes::copy_bytes;
use crate::error::MlsError;
use crate::leaf::{ExtensionList, SigningIdentity};
use crate::proposal::{
    AddProposal, CustomProposal, PreSharedKeyProposal, Proposal, ReInitProposal, RemoveProposal,
};
use vstd::prelude::*;

verus! {

/// A secret key to sign with.
#[derive(Debug, PartialEq, Eq)]
pub struct SignatureSecretKey {
    pub bytes: Vec<u8>,
}

impl View for SignatureSecretKey {
    type V = Seq<u8>;

    open spec fn view(&self) -> Seq<u8> {
        self.bytes@
    }
}

impl Clone for SignatureSecretKey {
    fn clone(&self) -> (res: Self)
        ensures
            res@ == self@,
    {
        SignatureSecretKey { bytes: copy_bytes(self.bytes.as_slice()) }
    }
}

/// A time, in seconds.
#[derive(Clone, Copy, Debug, PartialEq, Eq, Structural)]
pub struct MlsTime {
    pub seconds: u64,
}

/// The identifier of a pre-shared key.
#[derive(Debug, PartialEq, Eq)]
pub enum JustPreSharedKeyID {
    External(Vec<u8>),
    Resumption { usage: ResumptionPSKUsage, psk_group_id: Vec<u8>, psk_epoch: u64 },
}

/// What a resumption key is used for.
#[derive(Clone, Copy, Debug, PartialEq, Eq, Structural)]
pub enum ResumptionPSKUsage {
    Application,
    Reinit,
    Branch,
}

/// A commit that is being built, with the proposals that it holds by value.
#[derive(Debug, PartialEq, Eq)]
pub struct CommitBuilder {
    pub proposals: Vec<Proposal>,
    pub authenticated_data: Vec<u8>,
    pub group_info_extensions: ExtensionList,
    pub new_signer: Option<SignatureSecretKey>,
    pub new_signing_identity: Option<SigningIdentity>,
    pub new_leaf_node_extensions: Option<ExtensionList>,
    pub commit_time: Option<MlsTime>,
}

impl CommitBuilder {
    /// Whether `self` is `before` with `proposal` at the end.
    pub open spec fn adds(self, before: CommitBuilder, proposal: Proposal) -> bool {
        &&& self.proposals@ == before.proposals@.push(proposal)
        &&& self == CommitBuilder { proposals: self.proposals, ..before }
    }

    /// A commit that asks for nothing.
    pub fn new() -> (res: Self)
        ensures
            res.proposals@.len() == 0,
            res.authenticated_data@.len() == 0,
            res.group_info_extensions@.len() == 0,
            res.new_signer is None,
            res.new_signing_identity is None,
            res.new_leaf_node_extensions is None,
            res.commit_time is None,
    {
        CommitBuilder {
            proposals: Vec::new(),
            authenticated_data: Vec::new(),
            group_info_extensions: ExtensionList { bytes: Vec::new() },
            new_signer: None,
            new_signing_identity: None,
            new_leaf_node_extensions: None,
            commit_time: None,
        }
    }

    /// Adds a member, if the group made a proposal of its key package.
    pub fn add_member(self, proposal: Result<AddProposal, MlsError>) -> (res: Result<
        Self,
        MlsError,
    >)
        ensures
            match proposal {
                Ok(proposal) => res is Ok && res->Ok_0.adds(self, Proposal::Add(proposal)),
                Err(e) => res == Err::<Self, _>(e),
            },
    {
        match proposal {
            Ok(proposal) => Ok(self.raw_proposal(Proposal::Add(proposal))),
            Err(e) => Err(e),
        }
    }

    /// Sets the extensions of the group info in welcome messages.
    pub fn set_group_info_ext(self, extensions: ExtensionList) -> (res: Self)
        ensures
            res == (CommitBuilder { group_info_extensions: extensions, ..self }),
    {
        CommitBuilder { group_info_extensions: extensions, ..self }
    }

    /// Removes a member, if the group made a proposal of its index.
    pub fn remove_member(self, proposal: Result<RemoveProposal, MlsError>) -> (res: Result<
        Self,
        MlsError,
    >)
        ensures
            match proposal {
                Ok(proposal) => res is Ok && res->Ok_0.adds(self, Proposal::Remove(proposal)),
                Err(e) => res == Err::<Self, _>(e),
            },
    {
        match proposal {
            Ok(proposal) => Ok(self.raw_proposal(Proposal::Remove(proposal))),
            Err(e) => Err(e),
        }
    }

    /// Sets the extensions of the group context.
    pub fn set_group_context_ext(self, extensions: ExtensionList) -> (res: Result<Self, MlsError>)
        ensures
            res is Ok,
            res->Ok_0.adds(self, Proposal::GroupContextExtensions(extensions)),
    {
        Ok(self.raw_proposal(Proposal::GroupContextExtensions(extensions)))
    }

    /// The identifier of an external pre-shared key, for which the group makes a proposal.
    pub fn external_psk_id(psk_id: Vec<u8>) -> (res: JustPreSharedKeyID)
        ensures
            res == JustPreSharedKeyID::External(psk_id),
    {
        JustPreSharedKeyID::External(psk_id)
    }

    /// Mixes in an external pre-shared key, if the group made a proposal of its identifier.
    pub fn add_external_psk(self, proposal: Result<PreSharedKeyProposal, MlsError>) -> (res: Result<
        Self,
        MlsError,
    >)
        ensures
            match proposal {
                Ok(proposal) => res is Ok && res->Ok_0.adds(self, Proposal::Psk(proposal)),
                Err(e) => res == Err::<Self, _>(e),
            },
    {
        match proposal {
            Ok(proposal) => Ok(self.raw_proposal(Proposal::Psk(proposal))),
            Err(e) => Err(e),
        }
    }

    /// The identifier of the resumption key of an epoch of the group, for which the group
    /// makes a proposal.
    pub fn resumption_psk_id(psk_epoch: u64, group_id: Vec<u8>) -> (res: JustPreSharedKeyID)
        ensures
            res == (JustPreSharedKeyID::Resumption {
                usage: ResumptionPSKUsage::Application,
                psk_group_id: group_id,
                psk_epoch,
            }),
    {
        JustPreSharedKeyID::Resumption {
            usage: ResumptionPSKUsage::Application,
            psk_group_id: group_id,
            psk_epoch,
        }
    }

    /// Mixes in a resumption key, if the group made a proposal of its identifier.
    pub fn add_resumption_psk(self, proposal: Result<PreSharedKeyProposal, MlsError>) -> (res:
        Result<Self, MlsError>)
        ensures
            match proposal {
                Ok(proposal) => res is Ok && res->Ok_0.adds(self, Proposal::Psk(proposal)),
                Err(e) => res == Err::<Self, _>(e),
            },
    {
        match proposal {
            Ok(proposal) => Ok(self.raw_proposal(Proposal::Psk(proposal))),
            Err(e) => Err(e),
        }
    }

    /// Ends the group, if the group made a proposal of the new parameters.
    pub fn reinit(self, proposal: Result<ReInitProposal, MlsError>) -> (res: Result<
        Self,
        MlsError,
    >)
        ensures
            match proposal {
                Ok(proposal) => res is Ok && res->Ok_0.adds(self, Proposal::ReInit(proposal)),
                Err(e) => res == Err::<Self, _>(e),
            },
    {
        match proposal {
            Ok(proposal) => Ok(self.raw_proposal(Proposal::ReInit(proposal))),
            Err(e) => Err(e),
        }
    }

    /// Adds a proposal that the application defines.
    pub fn custom_proposal(self, proposal: CustomProposal) -> (res: Self)
        ensures
            res.adds(self, Proposal::Custom(proposal)),
    {
        self.raw_proposal(Proposal::Custom(proposal))
    }

    /// Adds a proposal.
    pub fn raw_proposal(self, proposal: Proposal) -> (res: Self)
        ensures
            res.adds(self, proposal),
    {
        let mut builder: CommitBuilder = self;
        builder.proposals.push(proposal);
        builder
    }

    /// Adds proposals.
    pub fn raw_proposals(self, proposals: Vec<Proposal>) -> (res: Self)
        ensures
            res.proposals@ == self.proposals@ + proposals@,
            res == (CommitBuilder { proposals: res.proposals, ..self }),
    {
        let mut builder: CommitBuilder = self;
        let mut proposals: Vec<Proposal> = proposals;
        builder.proposals.append(&mut proposals);
        builder
    }

    /// Sets the data that is sent, unencrypted, with the commit.
    pub fn authenticated_data(self, authenticated_data: Vec<u8>) -> (res: Self)
        ensures
            res == (CommitBuilder { authenticated_data, ..self }),
    {
        CommitBuilder { authenticated_data, ..self }
    }

    /// Changes the identity under which the committer signs.
    pub fn set_new_signing_identity(
        self,
        signer: SignatureSecretKey,
        signing_identity: SigningIdentity,
    ) -> (res: Self)
        ensures
            res == (CommitBuilder {
                new_signer: Some(signer),
                new_signing_identity: Some(signing_identity),
                ..self
            }),
    {
        CommitBuilder {
            new_signer: Some(signer),
            new_signing_identity: Some(signing_identity),
            ..self
        }
    }

    /// Changes the extensions of the committer's leaf.
    pub fn set_leaf_node_extensions(self, new_leaf_node_extensions: ExtensionList) -> (res: Self)
        ensures
            res == (CommitBuilder {
                new_leaf_node_extensions: Some(new_leaf_node_extensions),
                ..self
            }),
    {
        CommitBuilder { new_leaf_node_extensions: Some(new_leaf_node_extensions), ..self }
    }

    /// Sets the time of the commit.
    pub fn commit_time(self, commit_time: MlsTime) -> (res: Self)
        ensures
            res == (CommitBuilder { commit_time: Some(commit_time), ..self }),
    {
        CommitBuilder { commit_time: Some(commit_time), ..self }
    }
}

/// Adding a proposal puts it behind those that were there, and changes nothing else.
pub proof fn law_proposals_are_added_at_the_end(
    before: CommitBuilder,
    after: CommitBuilder,
    proposal: Proposal,
)
    requires
        after.adds(before, proposal),
    ensures
        after.proposals@.len() == before.proposals@.len() + 1,
        forall|i: int|
            0 <= i < before.proposals@.len() ==> #[trigger] after.proposals@[i]
                == before.proposals@[i],
        after.proposals@[before.proposals@.len() as int] == proposal,
        after.authenticated_data == before.authenticated_data,
        after.group_info_extensions == before.group_info_extensions,
        after.new_signer == before.new_signer,
        after.new_signing_identity == before.new_signing_identity,
        after.new_leaf_node_extensions == before.new_leaf_node_extensions,
        after.commit_time == before.commit_time,
{
}

/// Signing keys that are seen the same have the same bytes.
pub proof fn law_signing_keys_are_seen_whole(a: SignatureSecretKey, b: SignatureSecretKey)
    ensures
        a@ == b@ <==> a.bytes@ == b.bytes@,
{
}

} // verus!
