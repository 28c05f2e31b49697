//! Proposals that a commit can hold.

use crate::bytes::copy_bytes;
use crate::leaf::{ExtensionList, LeafIndex};
use vstd::prelude::*;

verus! {

/// Adds the member with the given key package.
#[derive(Clone, Debug, PartialEq, Eq)]
pub struct AddProposal {
    pub key_package: Vec<u8>,
}

/// Replaces the sender's leaf.
#[derive(Clone, Debug, PartialEq, Eq)]
pub struct UpdateProposal {
    pub leaf_node: Vec<u8>,
}

/// Removes a member.
#[derive(Clone, Copy, Debug, PartialEq, Eq, Structural)]
pub struct RemoveProposal {
    pub to_remove: LeafIndex,
}

/// Mixes a pre-shared key into the next epoch.
#[derive(Clone, Debug, PartialEq, Eq)]
pub struct PreSharedKeyProposal {
    pub psk_id: Vec<u8>,
}

/// Ends the group, to be founded anew with other parameters.
#[derive(Debug, PartialEq, Eq)]
pub struct ReInitProposal {
    pub parameters: Vec<u8>,
}

impl View for ReInitProposal {
    type V = Seq<u8>;

    open spec fn view(&self) -> Seq<u8> {
        self.parameters@
    }
}

impl Clone for ReInitProposal {
    fn clone(&self) -> (res: Self)
        ensures
            res@ == self@,
    {
        ReInitProposal { parameters: copy_bytes(self.parameters.as_slice()) }
    }
}

/// Lets a new member join by its own commit.
#[derive(Clone, Debug, PartialEq, Eq)]
pub struct ExternalInitProposal {
    pub kem_output: Vec<u8>,
}

/// A proposal that the application defines.
#[derive(Clone, Debug, PartialEq, Eq)]
pub struct CustomProposal {
    pub proposal_type: u16,
    pub data: Vec<u8>,
}

/// A proposal. What only the sender and the receivers of a message interpret is held in
/// its wire form.
#[derive(Clone, Debug, PartialEq, Eq)]
pub enum Proposal {
    Add(AddProposal),
    Update(UpdateProposal),
    Remove(RemoveProposal),
    Psk(PreSharedKeyProposal),
    ReInit(ReInitProposal),
    ExternalInit(ExternalInitProposal),
    GroupContextExtensions(ExtensionList),
    Custom(CustomProposal),
}

/// Whether a commit of the given proposals has to carry an update path: it holds no
/// proposal, or one that is neither an addition, nor a pre-shared key, nor a
/// reinitialization.
pub open spec fn needs_path(proposals: Seq<Proposal>) -> bool {
    ||| proposals.len() == 0
    ||| exists|i: int|
        0 <= i < proposals.len() && !((#[trigger] proposals[i]) is Add || proposals[i] is Psk
            || proposals[i] is ReInit)
}

/// Whether a commit of the given proposals has to carry an update path.
pub fn path_update_required(proposals: &Vec<Proposal>) -> (res: bool)
    ensures
        res == needs_path(proposals@),
{
    let n: usize = proposals.len();
    let mut i: usize = 0;
    while i < n
        invariant
            0 <= i <= n,
            n == proposals@.len(),
            forall|j: int|
                0 <= j < i ==> (#[trigger] proposals@[j]) is Add || proposals@[j] is Psk
                    || proposals@[j] is ReInit,
        decreases n - i,
    {
        match &proposals[i] {
            Proposal::Add(_) | Proposal::Psk(_) | Proposal::ReInit(_) => {},
            _ => {
                return true;
            },
        }
        i += 1;
    }
    n == 0
}

/// A commit with a proposal that updates or removes a leaf, lets a member join from outside,
/// changes the extensions of the group or is the application's own has to carry an update path,
/// and so has one without proposals. One whose proposals only add members, mix in keys or end
/// the group has not.
pub proof fn law_kinds_of_proposals_ask_for_a_path(proposals: Seq<Proposal>)
    ensures
        proposals.len() == 0 ==> needs_path(proposals),
        forall|i: int|
            0 <= i < proposals.len() && (#[trigger] proposals[i]) is Update ==> needs_path(
                proposals,
            ),
        forall|i: int|
            0 <= i < proposals.len() && (#[trigger] proposals[i]) is Remove ==> needs_path(
                proposals,
            ),
        forall|i: int|
            0 <= i < proposals.len() && (#[trigger] proposals[i]) is ExternalInit ==> needs_path(
                proposals,
            ),
        forall|i: int|
            0 <= i < proposals.len() && (#[trigger] proposals[i]) is GroupContextExtensions
                ==> needs_path(proposals),
        forall|i: int|
            0 <= i < proposals.len() && (#[trigger] proposals[i]) is Custom ==> needs_path(
                proposals,
            ),
        proposals.len() > 0 && (forall|i: int|
            0 <= i < proposals.len() ==> (#[trigger] proposals[i]) is Add || proposals[i] is Psk
                || proposals[i] is ReInit) ==> !needs_path(proposals),
{
}

/// One more proposal never takes away that a path is asked for, and asks for one exactly if it
/// does so alone.
pub proof fn law_more_proposals_ask_for_no_less(proposals: Seq<Proposal>, more: Proposal)
    requires
        proposals.len() > 0,
    ensures
        needs_path(proposals) ==> needs_path(proposals.push(more)),
        needs_path(proposals.push(more)) <==> needs_path(proposals) || needs_path(seq![more]),
{
    let all = proposals.push(more);
    assert(all.last() == more);
    assert(seq![more][0] == more);
    if needs_path(proposals) {
        let i = choose|i: int|
            0 <= i < proposals.len() && !((#[trigger] proposals[i]) is Add || proposals[i] is Psk
                || proposals[i] is ReInit);
        assert(all[i] == proposals[i]);
    }
    if needs_path(seq![more]) {
        assert(all[proposals.len() as int] == more);
    }
    if needs_path(all) {
        let i = choose|i: int|
            0 <= i < all.len() && !((#[trigger] all[i]) is Add || all[i] is Psk || all[i]
                is ReInit);
        if i < proposals.len() {
            assert(all[i] == proposals[i]);
        } else {
            assert(seq![more][0] == all[i]);
        }
    }
}

} // verus!
