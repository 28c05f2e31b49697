//! What those get who join a group: the group info, the ratchet tree and welcome messages.

use crate::bytes::copy_bytes;
use crate::leaf::{ExtensionList, LeafIndex};
use vstd::prelude::*;

verus! {

/// What the rules of the application ask of a commit.
#[derive(Clone, Copy, Debug, PartialEq, Eq, Structural)]
pub struct CommitOptions {
    pub path_required: bool,
    pub ratchet_tree_extension: bool,
    pub single_welcome_message: bool,
    pub allow_external_commit: bool,
    pub always_out_of_band_ratchet_tree: bool,
}

/// Where the ratchet tree goes, and whether outsiders get a group info.
#[derive(Clone, Copy, Debug, PartialEq, Eq, Structural)]
pub struct GroupInfoPlan {
    /// A group info is made with which outsiders can join by their own commit.
    pub external_group_info: bool,
    /// That group info carries the tree.
    pub tree_in_external: bool,
    /// The group info in the welcome messages carries the tree.
    pub tree_in_welcome: bool,
    /// The tree is handed out to be sent on its own.
    pub tree_out_of_band: bool,
}

/// Where the ratchet tree goes, and whether outsiders get a group info.
pub open spec fn group_info_plan(options: CommitOptions) -> GroupInfoPlan {
    GroupInfoPlan {
        external_group_info: options.allow_external_commit,
        tree_in_external: options.allow_external_commit && options.ratchet_tree_extension
            && !options.always_out_of_band_ratchet_tree,
        tree_in_welcome: options.ratchet_tree_extension,
        tree_out_of_band: !options.ratchet_tree_extension
            || options.always_out_of_band_ratchet_tree,
    }
}

/// Where the ratchet tree goes, and whether outsiders get a group info.
pub fn plan_group_info(options: &CommitOptions) -> (res: GroupInfoPlan)
    ensures
        res == group_info_plan(*options),
{
    let tree_in_external: bool = if options.allow_external_commit {
        options.ratchet_tree_extension && !options.always_out_of_band_ratchet_tree
    } else {
        false
    };
    GroupInfoPlan {
        external_group_info: options.allow_external_commit,
        tree_in_external,
        tree_in_welcome: options.ratchet_tree_extension,
        tree_out_of_band: !options.ratchet_tree_extension
            || options.always_out_of_band_ratchet_tree,
    }
}

/// Whoever joins can get the ratchet tree, in the welcome message or on its own, and
/// whoever joins from outside in the group info or on its own.
pub proof fn law_ratchet_tree_is_at_hand(options: CommitOptions)
    ensures
        group_info_plan(options).tree_in_welcome || group_info_plan(options).tree_out_of_band,
        group_info_plan(options).external_group_info ==> group_info_plan(options).tree_in_external
            || group_info_plan(options).tree_out_of_band,
{
}

/// The secrets of the group for one new member, encrypted.
#[derive(Debug, PartialEq, Eq)]
pub struct EncryptedGroupSecrets {
    pub bytes: Vec<u8>,
}

/// A welcome message: the encrypted secrets for some of the new members, and the encrypted
/// group info.
#[derive(Debug, PartialEq, Eq)]
pub struct Welcome {
    pub cipher_suite: u16,
    pub secrets: Vec<EncryptedGroupSecrets>,
    pub encrypted_group_info: Vec<u8>,
}

/// What describes a group to those who join it.
#[derive(Debug, PartialEq, Eq)]
pub struct GroupInfo {
    pub group_context: Vec<u8>,
    pub extensions: ExtensionList,
    pub confirmation_tag: Vec<u8>,
    pub signer: LeafIndex,
    pub signature: Vec<u8>,
}

/// What a message holds.
#[derive(Debug, PartialEq, Eq)]
pub enum MlsMessagePayload {
    Welcome(Welcome),
    GroupInfo(GroupInfo),
}

/// A message.
#[derive(Debug, PartialEq, Eq)]
pub struct MlsMessage {
    pub version: u16,
    pub payload: MlsMessagePayload,
}

/// A group info that is yet to be signed.
pub fn unsigned_group_info(
    group_context: &Vec<u8>,
    extensions: ExtensionList,
    confirmation_tag: &Vec<u8>,
    signer: LeafIndex,
) -> (res: GroupInfo)
    ensures
        res.group_context@ == group_context@,
        res.extensions == extensions,
        res.confirmation_tag@ == confirmation_tag@,
        res.signer == signer,
        res.signature@.len() == 0,
{
    GroupInfo {
        group_context: copy_bytes(group_context.as_slice()),
        extensions,
        confirmation_tag: copy_bytes(confirmation_tag.as_slice()),
        signer,
        signature: Vec::new(),
    }
}

/// Whether `message` is a welcome message with the given secrets.
pub open spec fn is_welcome(
    message: MlsMessage,
    version: u16,
    cipher_suite: u16,
    secrets: Seq<EncryptedGroupSecrets>,
    encrypted_group_info: Seq<u8>,
) -> bool {
    &&& message.version == version
    &&& message.payload matches MlsMessagePayload::Welcome(welcome)
    &&& welcome.cipher_suite == cipher_suite
    &&& welcome.secrets@ == secrets
    &&& welcome.encrypted_group_info@ == encrypted_group_info
}

/// A welcome message with the given secrets.
pub fn make_welcome_message(
    version: u16,
    cipher_suite: u16,
    secrets: Vec<EncryptedGroupSecrets>,
    encrypted_group_info: &Vec<u8>,
) -> (res: MlsMessage)
    ensures
        is_welcome(res, version, cipher_suite, secrets@, encrypted_group_info@),
{
    MlsMessage {
        version,
        payload: MlsMessagePayload::Welcome(
            Welcome {
                cipher_suite,
                secrets,
                encrypted_group_info: copy_bytes(encrypted_group_info.as_slice()),
            },
        ),
    }
}

/// Which secrets go into which welcome message: all into one, or each into its own. There is
/// no message without secrets.
pub open spec fn welcome_batches(
    single: bool,
    secrets: Seq<EncryptedGroupSecrets>,
) -> Seq<Seq<EncryptedGroupSecrets>> {
    if single && secrets.len() > 0 {
        seq![secrets]
    } else {
        Seq::new(secrets.len(), |i: int| seq![secrets[i]])
    }
}

/// The welcome messages for the new members whose secrets are given.
pub fn make_welcome_messages(
    single: bool,
    version: u16,
    cipher_suite: u16,
    secrets: Vec<EncryptedGroupSecrets>,
    encrypted_group_info: &Vec<u8>,
) -> (res: Vec<MlsMessage>)
    ensures
        res@.len() == welcome_batches(single, secrets@).len(),
        forall|i: int|
            0 <= i < res@.len() ==> is_welcome(
                #[trigger] res@[i],
                version,
                cipher_suite,
                welcome_batches(single, secrets@)[i],
                encrypted_group_info@,
            ),
{
    let ghost all = secrets@;
    let mut out: Vec<MlsMessage> = Vec::new();
    if single && secrets.len() > 0 {
        out.push(make_welcome_message(version, cipher_suite, secrets, encrypted_group_info));
        return out;
    }
    let mut rest: Vec<EncryptedGroupSecrets> = secrets;
    while rest.len() > 0
        invariant
            out@.len() + rest@.len() == all.len(),
            rest@ == all.skip(out@.len() as int),
            forall|j: int|
                0 <= j < out@.len() ==> is_welcome(
                    #[trigger] out@[j],
                    version,
                    cipher_suite,
                    seq![all[j]],
                    encrypted_group_info@,
                ),
        decreases rest@.len(),
    {
        let mut one: Vec<EncryptedGroupSecrets> = Vec::new();
        one.push(rest.remove(0));
        assert(one@ =~= seq![all[out@.len() as int]]);
        assert(rest@ =~= all.skip(out@.len() as int + 1));
        out.push(make_welcome_message(version, cipher_suite, one, encrypted_group_info));
    }
    out
}

/// Without new members there is no welcome message; with some, there is one for all of them
/// or one for each, as was asked. Each member's secrets are in exactly one message.
pub proof fn law_each_new_member_is_welcomed_once(
    single: bool,
    secrets: Seq<EncryptedGroupSecrets>,
)
    ensures
        secrets.len() == 0 ==> welcome_batches(single, secrets).len() == 0,
        secrets.len() > 0 && single ==> welcome_batches(single, secrets).len() == 1,
        !single ==> welcome_batches(single, secrets).len() == secrets.len(),
        welcome_batches(single, secrets).flatten() == secrets,
{
    let batches = welcome_batches(single, secrets);
    if single && secrets.len() > 0 {
        batches.lemma_flatten_one_element();
    } else {
        lemma_flatten_singletons(secrets);
    }
}

/// Lists of one element each, one behind the other, are the list of the elements.
proof fn lemma_flatten_singletons(secrets: Seq<EncryptedGroupSecrets>)
    ensures
        Seq::new(secrets.len(), |i: int| seq![secrets[i]]).flatten() == secrets,
    decreases secrets.len(),
{
    let parts = Seq::new(secrets.len(), |i: int| seq![secrets[i]]);
    if secrets.len() > 0 {
        let others = secrets.drop_first();
        lemma_flatten_singletons(others);
        assert(parts.drop_first() =~= Seq::new(others.len(), |i: int| seq![others[i]]));
        assert(parts.first() == seq![secrets[0]]);
        assert(parts.flatten() =~= secrets);
    } else {
        assert(parts.flatten() =~= secrets);
    }
}

/// Outsiders get a group info exactly if they may commit. The tree goes into the welcome
/// messages exactly if the options ask for it, and is handed out exactly if they do not, or ask
/// for that always. The group info for outsiders carries it exactly if it is made, the options
/// ask for the tree in it, and the tree is not handed out.
pub proof fn law_options_say_where_the_tree_goes(options: CommitOptions)
    ensures
        group_info_plan(options).external_group_info <==> options.allow_external_commit,
        group_info_plan(options).tree_in_welcome <==> options.ratchet_tree_extension,
        options.always_out_of_band_ratchet_tree ==> group_info_plan(options).tree_out_of_band,
        !options.ratchet_tree_extension ==> group_info_plan(options).tree_out_of_band,
        options.ratchet_tree_extension && !options.always_out_of_band_ratchet_tree
            ==> !group_info_plan(options).tree_out_of_band,
        !options.allow_external_commit ==> !group_info_plan(options).tree_in_external,
        options.allow_external_commit ==> group_info_plan(options).tree_in_external
            != group_info_plan(options).tree_out_of_band,
{
}

/// A welcome message has the version, the cipher suite, the secrets and the group info that it
/// was made of. Unless one message was asked for, the message at each place is for the member
/// at that place, and for no other.
pub proof fn law_welcome_holds_what_it_was_made_of(
    single: bool,
    message: MlsMessage,
    version: u16,
    cipher_suite: u16,
    secrets: Seq<EncryptedGroupSecrets>,
    encrypted_group_info: Seq<u8>,
    i: int,
)
    requires
        0 <= i < welcome_batches(single, secrets).len(),
        is_welcome(
            message,
            version,
            cipher_suite,
            welcome_batches(single, secrets)[i],
            encrypted_group_info,
        ),
    ensures
        message.version == version,
        message.payload is Welcome,
        message.payload->Welcome_0.cipher_suite == cipher_suite,
        message.payload->Welcome_0.encrypted_group_info@ == encrypted_group_info,
        single ==> i == 0 && message.payload->Welcome_0.secrets@ == secrets,
        !single ==> i < secrets.len() && message.payload->Welcome_0.secrets@ == seq![secrets[i]],
{
}

} // verus!
