//! Application messages by which members in quarantine get their shares back.
//!
//! The messages travel as the payload of ordinary application messages.

use crate::bytes::{
    append_be, be_bytes, be_limit, be_value, concat, copy_bytes, law_blocks_stand_in_a_row,
};
use crate::codec::{
    append_framed, framed, law_read_framed_bytes, law_read_framed_was_written,
    law_read_int_was_written, law_read_written_int, read_framed, read_int, take_framed, take_int,
    CodecError, LENGTH_LIMIT,
};
use crate::error::{MlsError, SerializationCause};
use crate::leaf::LeafIndex;
use crate::tree_kem_private::{holder_views, GhostShareHolder, GhostShareHolderView};
use vstd::prelude::*;

verus! {

/// The kinds of messages.
#[derive(Copy, Clone, Debug, Eq, PartialEq, Structural)]
pub enum QuarantineAppMessageType {
    QuarantineEnd,
    ShareRecovery,
    ShareResend,
}

/// A member has left quarantine. Receivers may forget their shares of its key.
#[derive(Copy, Clone, Debug, Eq, PartialEq, Structural)]
pub struct QuarantineEnd {
    pub ghost_leaf: LeafIndex,
    pub key_epoch: u64,
}

/// A member that is active again asks for the shares of its key.
#[derive(Copy, Clone, Debug, Eq, PartialEq, Structural)]
pub struct ShareRecovery {
    pub ghost_leaf: LeafIndex,
    pub key_epoch: u64,
    /// Leaf index of the member that asks, at the time when it asks.
    pub requester_rank: u32,
}

/// A member answers with the shares that it holds.
#[derive(Clone, Debug, Eq, PartialEq)]
pub struct ShareResend {
    pub ghost_leaf: LeafIndex,
    pub key_epoch: u64,
    /// The member that is meant to take the shares.
    pub target_rank: u32,
    pub shares: Vec<GhostShareHolder>,
}

/// A message.
#[derive(Clone, Debug, Eq, PartialEq)]
pub enum QuarantineAppMessage {
    QuarantineEnd(QuarantineEnd),
    ShareRecovery(ShareRecovery),
    ShareResend(ShareResend),
}

/// The contents of a [`ShareResend`].
pub struct ShareResendView {
    pub ghost_leaf: LeafIndex,
    pub key_epoch: u64,
    pub target_rank: u32,
    pub shares: Seq<GhostShareHolderView>,
}

/// The contents of a [`QuarantineAppMessage`].
pub enum QuarantineAppMessageView {
    QuarantineEnd(QuarantineEnd),
    ShareRecovery(ShareRecovery),
    ShareResend(ShareResendView),
}

impl View for ShareResend {
    type V = ShareResendView;

    open spec fn view(&self) -> ShareResendView {
        ShareResendView {
            ghost_leaf: self.ghost_leaf,
            key_epoch: self.key_epoch,
            target_rank: self.target_rank,
            shares: holder_views(self.shares@),
        }
    }
}

impl View for QuarantineAppMessage {
    type V = QuarantineAppMessageView;

    open spec fn view(&self) -> QuarantineAppMessageView {
        match self {
            QuarantineAppMessage::QuarantineEnd(m) => QuarantineAppMessageView::QuarantineEnd(*m),
            QuarantineAppMessage::ShareRecovery(m) => QuarantineAppMessageView::ShareRecovery(*m),
            QuarantineAppMessage::ShareResend(m) => QuarantineAppMessageView::ShareResend(m@),
        }
    }
}

impl QuarantineAppMessageType {
    /// The first byte of a message of this kind.
    pub open spec fn tag(self) -> u8 {
        match self {
            QuarantineAppMessageType::QuarantineEnd => 1,
            QuarantineAppMessageType::ShareRecovery => 2,
            QuarantineAppMessageType::ShareResend => 3,
        }
    }

    /// The first byte of a message of this kind.
    pub fn wire_tag(self) -> (res: u8)
        ensures
            res == self.tag(),
    {
        match self {
            QuarantineAppMessageType::QuarantineEnd => 1,
            QuarantineAppMessageType::ShareRecovery => 2,
            QuarantineAppMessageType::ShareResend => 3,
        }
    }
}

impl QuarantineAppMessageView {
    /// The kind of the message.
    pub open spec fn kind(self) -> QuarantineAppMessageType {
        match self {
            QuarantineAppMessageView::QuarantineEnd(_) => QuarantineAppMessageType::QuarantineEnd,
            QuarantineAppMessageView::ShareRecovery(_) => QuarantineAppMessageType::ShareRecovery,
            QuarantineAppMessageView::ShareResend(_) => QuarantineAppMessageType::ShareResend,
        }
    }
}

/// A leaf index and an epoch, as they are written.
pub open spec fn key_wire(ghost_leaf: LeafIndex, key_epoch: u64) -> Seq<u8> {
    be_bytes(ghost_leaf.0 as int, 4) + be_bytes(key_epoch as int, 8)
}

/// A share, as it is written.
pub open spec fn holder_wire(holder: GhostShareHolderView) -> Seq<u8> {
    key_wire(holder.ghost_leaf, holder.key_epoch) + be_bytes(holder.share_id as int, 1) + be_bytes(
        holder.holder_rank as int,
        4,
    ) + framed(holder.share_value)
}

/// Shares one behind the other, as they are written.
pub open spec fn holders_wire(holders: Seq<GhostShareHolderView>) -> Seq<u8> {
    concat(Seq::new(holders.len(), |i: int| holder_wire(holders[i])))
}

/// A message without its first byte, as it is written.
pub open spec fn body_wire(message: QuarantineAppMessageView) -> Seq<u8> {
    match message {
        QuarantineAppMessageView::QuarantineEnd(m) => key_wire(m.ghost_leaf, m.key_epoch),
        QuarantineAppMessageView::ShareRecovery(m) => key_wire(m.ghost_leaf, m.key_epoch)
            + be_bytes(m.requester_rank as int, 4),
        QuarantineAppMessageView::ShareResend(m) => key_wire(m.ghost_leaf, m.key_epoch) + be_bytes(
            m.target_rank as int,
            4,
        ) + framed(holders_wire(m.shares)),
    }
}

/// A message, as it is written.
pub open spec fn message_wire(message: QuarantineAppMessageView) -> Seq<u8> {
    seq![message.kind().tag()] + body_wire(message)
}

/// Whether no part of the message is too long to be written.
pub open spec fn is_writable(message: QuarantineAppMessageView) -> bool {
    match message {
        QuarantineAppMessageView::ShareResend(m) => {
            &&& holders_wire(m.shares).len() < LENGTH_LIMIT
            &&& forall|i: int|
                0 <= i < m.shares.len() ==> (#[trigger] m.shares[i]).share_value.len()
                    < LENGTH_LIMIT
        },
        _ => true,
    }
}

/// Appends a leaf index and an epoch.
fn append_key(out: &mut Vec<u8>, ghost_leaf: LeafIndex, key_epoch: u64)
    ensures
        final(out)@ == old(out)@ + key_wire(ghost_leaf, key_epoch),
{
    let ghost before = out@;
    append_be(out, ghost_leaf.0 as u64, 4);
    append_be(out, key_epoch, 8);
    assert(out@ =~= before + key_wire(ghost_leaf, key_epoch));
}

/// Appends a share.
fn append_holder(out: &mut Vec<u8>, holder: &GhostShareHolder) -> (res: Result<(), CodecError>)
    ensures
        match res {
            Ok(_) => holder@.share_value.len() < LENGTH_LIMIT && final(out)@ == old(out)@
                + holder_wire(holder@),
            Err(e) => holder@.share_value.len() >= LENGTH_LIMIT && e
                == CodecError::VarIntOutOfRange,
        },
{
    let ghost before = out@;
    append_key(out, holder.ghost_leaf, holder.key_epoch);
    append_be(out, holder.share_id as u64, 1);
    append_be(out, holder.holder_rank as u64, 4);
    match append_framed(out, holder.share_value.as_slice()) {
        Err(e) => Err(e),
        Ok(_) => {
            assert(out@ =~= before + holder_wire(holder@));
            Ok(())
        },
    }
}

/// The shares one behind the other.
fn encode_holders(holders: &Vec<GhostShareHolder>) -> (res: Result<Vec<u8>, CodecError>)
    ensures
        ({
            let fits = forall|i: int|
                0 <= i < holders@.len() ==> (#[trigger] holder_views(holders@)[i]).share_value.len()
                    < LENGTH_LIMIT;
            match res {
                Ok(bytes) => fits && bytes@ == holders_wire(holder_views(holders@)),
                Err(e) => !fits && e == CodecError::VarIntOutOfRange,
            }
        }),
{
    let ghost views = holder_views(holders@);
    let ghost parts = Seq::new(views.len(), |i: int| holder_wire(views[i]));
    let mut out: Vec<u8> = Vec::new();
    let n: usize = holders.len();
    let mut i: usize = 0;
    assert(concat(parts.take(0)) =~= Seq::empty());
    while i < n
        invariant
            0 <= i <= n,
            n == holders@.len(),
            views == holder_views(holders@),
            parts == Seq::new(views.len(), |i: int| holder_wire(views[i])),
            forall|j: int| 0 <= j < i ==> (#[trigger] views[j]).share_value.len() < LENGTH_LIMIT,
            out@ == concat(parts.take(i as int)),
        decreases n - i,
    {
        match append_holder(&mut out, &holders[i]) {
            Err(e) => {
                assert(views[i as int].share_value.len() >= LENGTH_LIMIT);
                return Err(e);
            },
            Ok(_) => {},
        }
        assert(parts.take(i + 1).drop_last() =~= parts.take(i as int));
        assert(parts.take(i + 1).last() == holder_wire(holders@[i as int]@));
        i += 1;
    }
    assert(parts.take(n as int) =~= parts);
    Ok(out)
}

impl QuarantineAppMessage {
    /// The kind of the message.
    pub fn message_type(&self) -> (res: QuarantineAppMessageType)
        ensures
            res == self@.kind(),
    {
        match self {
            QuarantineAppMessage::QuarantineEnd(_) => QuarantineAppMessageType::QuarantineEnd,
            QuarantineAppMessage::ShareRecovery(_) => QuarantineAppMessageType::ShareRecovery,
            QuarantineAppMessage::ShareResend(_) => QuarantineAppMessageType::ShareResend,
        }
    }

    /// The message, as it is written.
    pub fn encode_to_bytes(&self) -> (res: Result<Vec<u8>, MlsError>)
        ensures
            match res {
                Ok(bytes) => is_writable(self@) && bytes@ == message_wire(self@),
                Err(e) => !is_writable(self@) && e == MlsError::SerializationError(
                    SerializationCause::Codec(CodecError::VarIntOutOfRange),
                ),
            },
    {
        let mut out: Vec<u8> = Vec::new();
        out.push(self.message_type().wire_tag());
        assert(out@ =~= seq![self@.kind().tag()]);
        match self {
            QuarantineAppMessage::QuarantineEnd(m) => {
                append_key(&mut out, m.ghost_leaf, m.key_epoch);
            },
            QuarantineAppMessage::ShareRecovery(m) => {
                append_key(&mut out, m.ghost_leaf, m.key_epoch);
                append_be(&mut out, m.requester_rank as u64, 4);
            },
            QuarantineAppMessage::ShareResend(m) => {
                append_key(&mut out, m.ghost_leaf, m.key_epoch);
                append_be(&mut out, m.target_rank as u64, 4);
                let shares: Vec<u8> = match encode_holders(&m.shares) {
                    Ok(shares) => shares,
                    Err(e) => {
                        return Err(MlsError::SerializationError(SerializationCause::Codec(e)));
                    },
                };
                match append_framed(&mut out, shares.as_slice()) {
                    Ok(_) => {},
                    Err(e) => {
                        return Err(MlsError::SerializationError(SerializationCause::Codec(e)));
                    },
                }
            },
        }
        assert(out@ =~= message_wire(self@));
        Ok(out)
    }
}

/// A leaf index and an epoch at the start of `b`, and what follows them.
pub open spec fn read_key(b: Seq<u8>) -> Result<((LeafIndex, u64), Seq<u8>), CodecError> {
    match read_int(b, 4) {
        Err(e) => Err(e),
        Ok((leaf, b)) => match read_int(b, 8) {
            Err(e) => Err(e),
            Ok((epoch, b)) => Ok(((LeafIndex(leaf as u32), epoch as u64), b)),
        },
    }
}

/// The share at the start of `b`, and what follows it.
pub open spec fn read_holder(b: Seq<u8>) -> Result<
    (GhostShareHolderView, Seq<u8>),
    CodecError,
> {
    match read_key(b) {
        Err(e) => Err(e),
        Ok(((ghost_leaf, key_epoch), b)) => match read_int(b, 1) {
            Err(e) => Err(e),
            Ok((id, b)) => match read_int(b, 4) {
                Err(e) => Err(e),
                Ok((rank, b)) => match read_framed(b) {
                    Err(e) => Err(e),
                    Ok((share_value, b)) => Ok(
                        (
                            GhostShareHolderView {
                                ghost_leaf,
                                key_epoch,
                                share_id: id as u8,
                                holder_rank: rank as u32,
                                share_value,
                            },
                            b,
                        ),
                    ),
                },
            },
        },
    }
}

/// The shares that `b` consists of.
pub open spec fn read_holders(b: Seq<u8>) -> Result<Seq<GhostShareHolderView>, CodecError>
    decreases b.len(),
{
    if b.len() == 0 {
        Ok(Seq::empty())
    } else {
        match read_holder(b) {
            Err(e) => Err(e),
            Ok((first, rest)) => if rest.len() >= b.len() {
                Err(CodecError::InvalidContent)
            } else {
                match read_holders(rest) {
                    Err(e) => Err(e),
                    Ok(others) => Ok(seq![first] + others),
                }
            },
        }
    }
}

/// The rest of a message with the given first byte, at the start of `b`.
pub open spec fn read_body(tag: int, b: Seq<u8>) -> Result<QuarantineAppMessageView, CodecError> {
    match read_key(b) {
        Err(e) => Err(e),
        Ok(((ghost_leaf, key_epoch), b)) => if tag == 1 {
            Ok(QuarantineAppMessageView::QuarantineEnd(QuarantineEnd { ghost_leaf, key_epoch }))
        } else {
            match read_int(b, 4) {
                Err(e) => Err(e),
                Ok((rank, b)) => if tag == 2 {
                    Ok(
                        QuarantineAppMessageView::ShareRecovery(
                            ShareRecovery { ghost_leaf, key_epoch, requester_rank: rank as u32 },
                        ),
                    )
                } else {
                    match read_framed(b) {
                        Err(e) => Err(e),
                        Ok((list, _)) => match read_holders(list) {
                            Err(e) => Err(e),
                            Ok(shares) => Ok(
                                QuarantineAppMessageView::ShareResend(
                                    ShareResendView {
                                        ghost_leaf,
                                        key_epoch,
                                        target_rank: rank as u32,
                                        shares,
                                    },
                                ),
                            ),
                        },
                    }
                },
            }
        },
    }
}

/// The message at the start of `b`. What follows it is of no account.
pub open spec fn read_message(b: Seq<u8>) -> Result<QuarantineAppMessageView, CodecError> {
    match read_int(b, 1) {
        Err(e) => Err(e),
        Ok((tag, b)) => if 1 <= tag <= 3 {
            read_body(tag, b)
        } else {
            Err(CodecError::UnsupportedEnumDiscriminant)
        },
    }
}

/// Reads a leaf index and an epoch.
fn take_key<'a>(data: &'a [u8]) -> (res: Result<((LeafIndex, u64), &'a [u8]), CodecError>)
    ensures
        match res {
            Ok((key, rest)) => read_key(data@) == Ok::<_, CodecError>((key, rest@)),
            Err(e) => read_key(data@) == Err::<((LeafIndex, u64), Seq<u8>), _>(e),
        },
{
    proof {
        lemma_limits();
    }
    let (leaf, data) = match take_int(data, 4) {
        Ok(x) => x,
        Err(e) => {
            return Err(e);
        },
    };
    let (epoch, data) = match take_int(data, 8) {
        Ok(x) => x,
        Err(e) => {
            return Err(e);
        },
    };
    Ok(((LeafIndex(leaf as u32), epoch), data))
}

/// Reads a share.
fn take_holder<'a>(data: &'a [u8]) -> (res: Result<(GhostShareHolder, &'a [u8]), CodecError>)
    ensures
        match res {
            Ok((holder, rest)) => read_holder(data@) == Ok::<_, CodecError>((holder@, rest@)),
            Err(e) => read_holder(data@) == Err::<(GhostShareHolderView, Seq<u8>), _>(e),
        },
{
    proof {
        lemma_limits();
    }
    let ((ghost_leaf, key_epoch), data) = match take_key(data) {
        Ok(x) => x,
        Err(e) => {
            return Err(e);
        },
    };
    let (share_id, data) = match take_int(data, 1) {
        Ok(x) => x,
        Err(e) => {
            return Err(e);
        },
    };
    let (holder_rank, data) = match take_int(data, 4) {
        Ok(x) => x,
        Err(e) => {
            return Err(e);
        },
    };
    let (share_value, data) = match take_framed(data) {
        Ok(x) => x,
        Err(e) => {
            return Err(e);
        },
    };
    let holder: GhostShareHolder = GhostShareHolder {
        ghost_leaf,
        key_epoch,
        share_id: share_id as u8,
        holder_rank: holder_rank as u32,
        share_value: copy_bytes(share_value),
    };
    Ok((holder, data))
}

/// The result of reading shares, with those that were read before in front.
pub open spec fn prefixed(
    before: Seq<GhostShareHolderView>,
    res: Result<Seq<GhostShareHolderView>, CodecError>,
) -> Result<Seq<GhostShareHolderView>, CodecError> {
    match res {
        Ok(shares) => Ok(before + shares),
        Err(e) => Err(e),
    }
}

/// Reads the shares that the bytes consist of.
fn take_holders(data: &[u8]) -> (res: Result<Vec<GhostShareHolder>, CodecError>)
    ensures
        match res {
            Ok(holders) => read_holders(data@) == Ok::<_, CodecError>(holder_views(holders@)),
            Err(e) => read_holders(data@) == Err::<Seq<GhostShareHolderView>, _>(e),
        },
{
    let mut rest: &[u8] = data;
    let mut out: Vec<GhostShareHolder> = Vec::new();
    proof {
        lemma_nothing_in_front(read_holders(data@));
        assert(holder_views(out@) =~= Seq::empty());
    }
    while rest.len() > 0
        invariant
            read_holders(data@) == prefixed(holder_views(out@), read_holders(rest@)),
        decreases rest@.len(),
    {
        let before: usize = rest.len();
        let ghost read = holder_views(out@);
        match take_holder(rest) {
            Err(e) => {
                return Err(e);
            },
            Ok((holder, left)) => {
                if left.len() >= before {
                    return Err(CodecError::InvalidContent);
                }
                proof {
                    lemma_move_to_front(read, holder@, read_holders(left@));
                }
                out.push(holder);
                assert(holder_views(out@) =~= read.push(holder@));
                rest = left;
            },
        }
    }
    assert(holder_views(out@) + Seq::empty() =~= holder_views(out@));
    Ok(out)
}

/// Nothing in front of a result leaves it as it is.
proof fn lemma_nothing_in_front(res: Result<Seq<GhostShareHolderView>, CodecError>)
    ensures
        prefixed(Seq::empty(), res) == res,
{
    if let Ok(shares) = res {
        assert(Seq::<GhostShareHolderView>::empty() + shares =~= shares);
    }
}

/// A share may stand at the end of what was read before or in front of what follows.
proof fn lemma_move_to_front(
    before: Seq<GhostShareHolderView>,
    share: GhostShareHolderView,
    res: Result<Seq<GhostShareHolderView>, CodecError>,
)
    ensures
        prefixed(before, prefixed(seq![share], res)) == prefixed(before.push(share), res),
{
    if let Ok(shares) = res {
        assert(before + (seq![share] + shares) =~= before.push(share) + shares);
    }
}

/// The limits of the integers in messages.
proof fn lemma_limits()
    ensures
        be_limit(1) == 0x100,
        be_limit(4) == 0x1_0000_0000,
        be_limit(8) == 0x1_0000_0000_0000_0000,
{
    reveal_with_fuel(be_limit, 9);
}

/// Reads a message.
fn take_message(data: &[u8]) -> (res: Result<QuarantineAppMessage, CodecError>)
    ensures
        match res {
            Ok(message) => read_message(data@) == Ok::<_, CodecError>(message@),
            Err(e) => read_message(data@) == Err::<QuarantineAppMessageView, _>(e),
        },
{
    proof {
        lemma_limits();
    }
    let (tag, data) = match take_int(data, 1) {
        Ok(x) => x,
        Err(e) => {
            return Err(e);
        },
    };
    if tag < 1 || tag > 3 {
        return Err(CodecError::UnsupportedEnumDiscriminant);
    }
    let ((ghost_leaf, key_epoch), data) = match take_key(data) {
        Ok(x) => x,
        Err(e) => {
            return Err(e);
        },
    };
    if tag == 1 {
        return Ok(QuarantineAppMessage::QuarantineEnd(QuarantineEnd { ghost_leaf, key_epoch }));
    }
    let (rank, data) = match take_int(data, 4) {
        Ok(x) => x,
        Err(e) => {
            return Err(e);
        },
    };
    if tag == 2 {
        return Ok(
            QuarantineAppMessage::ShareRecovery(
                ShareRecovery { ghost_leaf, key_epoch, requester_rank: rank as u32 },
            ),
        );
    }
    let (list, _) = match take_framed(data) {
        Ok(x) => x,
        Err(e) => {
            return Err(e);
        },
    };
    match take_holders(list) {
        Err(e) => Err(e),
        Ok(shares) => Ok(
            QuarantineAppMessage::ShareResend(
                ShareResend { ghost_leaf, key_epoch, target_rank: rank as u32, shares },
            ),
        ),
    }
}

impl QuarantineAppMessage {
    /// The message at the start of `data`. What follows it is of no account.
    pub fn decode_from_bytes(data: &[u8]) -> (res: Result<Self, MlsError>)
        ensures
            match res {
                Ok(message) => read_message(data@) == Ok::<_, CodecError>(message@),
                Err(e) => match read_message(data@) {
                    Ok(_) => false,
                    Err(cause) => e == MlsError::SerializationError(
                        SerializationCause::Codec(cause),
                    ),
                },
            },
    {
        match take_message(data) {
            Ok(message) => Ok(message),
            Err(e) => Err(MlsError::SerializationError(SerializationCause::Codec(e))),
        }
    }
}

/// Reading a leaf index and an epoch that were written gives them back.
proof fn lemma_read_key(ghost_leaf: LeafIndex, key_epoch: u64, rest: Seq<u8>)
    ensures
        read_key(key_wire(ghost_leaf, key_epoch) + rest) == Ok::<_, CodecError>(
            ((ghost_leaf, key_epoch), rest),
        ),
{
    lemma_limits();
    let epoch = be_bytes(key_epoch as int, 8);
    law_read_written_int(ghost_leaf.0 as int, 4, epoch + rest);
    law_read_written_int(key_epoch as int, 8, rest);
    assert(key_wire(ghost_leaf, key_epoch) + rest =~= be_bytes(ghost_leaf.0 as int, 4) + (epoch
        + rest));
}

/// Reading a share that was written gives it back.
proof fn lemma_read_holder(holder: GhostShareHolderView, rest: Seq<u8>)
    requires
        holder.share_value.len() < LENGTH_LIMIT,
    ensures
        read_holder(holder_wire(holder) + rest) == Ok::<_, CodecError>((holder, rest)),
{
    lemma_limits();
    let value = framed(holder.share_value) + rest;
    let rank = be_bytes(holder.holder_rank as int, 4) + value;
    let id = be_bytes(holder.share_id as int, 1) + rank;
    lemma_read_key(holder.ghost_leaf, holder.key_epoch, id);
    law_read_written_int(holder.share_id as int, 1, rank);
    law_read_written_int(holder.holder_rank as int, 4, value);
    law_read_framed_bytes(holder.share_value, rest);
    assert(holder_wire(holder) + rest =~= key_wire(holder.ghost_leaf, holder.key_epoch) + id);
}

/// The first of some shares stands in front of the others.
proof fn lemma_first_holder(holders: Seq<GhostShareHolderView>)
    requires
        holders.len() > 0,
    ensures
        holders_wire(holders) == holder_wire(holders[0]) + holders_wire(holders.skip(1)),
    decreases holders.len(),
{
    let parts = Seq::new(holders.len(), |i: int| holder_wire(holders[i]));
    let others = holders.skip(1);
    let other_parts = Seq::new(others.len(), |i: int| holder_wire(others[i]));
    if holders.len() == 1 {
        assert(parts.drop_last() =~= Seq::empty());
        assert(concat(parts.drop_last()) =~= Seq::empty());
        assert(other_parts =~= Seq::empty());
        assert(concat(other_parts) =~= Seq::empty());
        assert(concat(parts) =~= holder_wire(holders[0]) + concat(other_parts));
    } else {
        let init = holders.drop_last();
        lemma_first_holder(init);
        assert(parts.drop_last() =~= Seq::new(init.len(), |i: int| holder_wire(init[i])));
        assert(init.skip(1) =~= others.drop_last());
        let others_init = others.drop_last();
        assert(other_parts.drop_last() =~= Seq::new(
            others_init.len(),
            |i: int| holder_wire(others_init[i]),
        ));
        assert(parts.last() == other_parts.last());
        assert(concat(parts) =~= holder_wire(holders[0]) + concat(other_parts));
    }
}

/// Reading shares that were written gives them back.
proof fn lemma_read_holders(holders: Seq<GhostShareHolderView>)
    requires
        forall|i: int|
            0 <= i < holders.len() ==> (#[trigger] holders[i]).share_value.len() < LENGTH_LIMIT,
    ensures
        read_holders(holders_wire(holders)) == Ok::<_, CodecError>(holders),
    decreases holders.len(),
{
    let bytes = holders_wire(holders);
    if holders.len() == 0 {
        assert(Seq::new(holders.len(), |i: int| holder_wire(holders[i])) =~= Seq::empty());
        assert(bytes =~= Seq::empty());
        assert(holders =~= Seq::empty());
    } else {
        let others = holders.skip(1);
        lemma_first_holder(holders);
        lemma_read_holder(holders[0], holders_wire(others));
        assert forall|i: int| 0 <= i < others.len() implies (
        #[trigger] others[i]).share_value.len() < LENGTH_LIMIT by {
            assert(others[i] == holders[i + 1]);
        }
        lemma_read_holders(others);
        assert(be_bytes(holders[0].share_id as int, 1).len() == 1) by {
            lemma_limits();
            crate::bytes::lemma_be_value_of_bytes(holders[0].share_id as int, 1);
        }
        assert(seq![holders[0]] + others =~= holders);
    }
}

/// Reading the rest of a message that was written gives the message back.
proof fn lemma_read_body(message: QuarantineAppMessageView, rest: Seq<u8>)
    requires
        is_writable(message),
    ensures
        read_body(message.kind().tag() as int, body_wire(message) + rest) == Ok::<_, CodecError>(
            message,
        ),
{
    lemma_limits();
    match message {
        QuarantineAppMessageView::QuarantineEnd(m) => {
            lemma_read_key(m.ghost_leaf, m.key_epoch, rest);
        },
        QuarantineAppMessageView::ShareRecovery(m) => {
            let rank = be_bytes(m.requester_rank as int, 4) + rest;
            lemma_read_key(m.ghost_leaf, m.key_epoch, rank);
            law_read_written_int(m.requester_rank as int, 4, rest);
            assert(body_wire(message) + rest =~= key_wire(m.ghost_leaf, m.key_epoch) + rank);
        },
        QuarantineAppMessageView::ShareResend(m) => {
            let list = framed(holders_wire(m.shares)) + rest;
            let rank = be_bytes(m.target_rank as int, 4) + list;
            lemma_read_key(m.ghost_leaf, m.key_epoch, rank);
            law_read_written_int(m.target_rank as int, 4, list);
            law_read_framed_bytes(holders_wire(m.shares), rest);
            lemma_read_holders(m.shares);
            assert(body_wire(message) + rest =~= key_wire(m.ghost_leaf, m.key_epoch) + rank);
        },
    }
}

/// Reading a message that was written gives it back, whatever follows it.
pub proof fn law_read_written_message(message: QuarantineAppMessageView, rest: Seq<u8>)
    requires
        is_writable(message),
    ensures
        read_message(message_wire(message) + rest) == Ok::<_, CodecError>(message),
{
    lemma_limits();
    let tag = message.kind().tag();
    let follows = body_wire(message) + rest;
    assert(be_bytes(tag as int, 1) =~= seq![tag]) by {
        reveal_with_fuel(be_bytes, 2);
    }
    assert(message_wire(message) + rest =~= be_bytes(tag as int, 1) + follows);
    law_read_written_int(tag as int, 1, follows);
    lemma_read_body(message, rest);
}

/// What reads as a leaf index and an epoch is how they are written.
proof fn lemma_key_was_written(b: Seq<u8>)
    ensures
        read_key(b) matches Ok(((leaf, epoch), rest)) ==> b == key_wire(leaf, epoch) + rest,
{
    lemma_limits();
    law_read_int_was_written(b, 4);
    if let Ok((leaf, after_leaf)) = read_int(b, 4) {
        law_read_int_was_written(after_leaf, 8);
        if let Ok((epoch, rest)) = read_int(after_leaf, 8) {
            assert(b =~= key_wire(LeafIndex(leaf as u32), epoch as u64) + rest);
        }
    }
}

/// What reads as a share is how the share is written.
proof fn lemma_holder_was_written(b: Seq<u8>)
    ensures
        read_holder(b) matches Ok((holder, rest)) ==> holder.share_value.len() < LENGTH_LIMIT && b
            == holder_wire(holder) + rest,
{
    lemma_limits();
    lemma_key_was_written(b);
    if let Ok((holder, rest)) = read_holder(b) {
        let (key, b1) = read_key(b)->Ok_0;
        law_read_int_was_written(b1, 1);
        let (id, b2) = read_int(b1, 1)->Ok_0;
        law_read_int_was_written(b2, 4);
        let (rank, b3) = read_int(b2, 4)->Ok_0;
        law_read_framed_was_written(b3);
        assert(b =~= holder_wire(holder) + rest);
    }
}

/// What reads as shares is how the shares are written.
proof fn lemma_holders_were_written(b: Seq<u8>)
    ensures
        read_holders(b) matches Ok(holders) ==> b == holders_wire(holders) && forall|i: int|
            0 <= i < holders.len() ==> (#[trigger] holders[i]).share_value.len() < LENGTH_LIMIT,
    decreases b.len(),
{
    if let Ok(holders) = read_holders(b) {
        if b.len() == 0 {
            assert(Seq::new(holders.len(), |i: int| holder_wire(holders[i])) =~= Seq::empty());
            assert(holders_wire(holders) =~= b);
        } else {
            lemma_holder_was_written(b);
            let (first, rest) = read_holder(b)->Ok_0;
            lemma_holders_were_written(rest);
            let others = read_holders(rest)->Ok_0;
            assert(holders == seq![first] + others);
            assert(holders.skip(1) =~= others);
            lemma_first_holder(holders);
            assert forall|i: int| 0 <= i < holders.len() implies (
            #[trigger] holders[i]).share_value.len() < LENGTH_LIMIT by {
                if i > 0 {
                    assert(holders[i] == others[i - 1]);
                }
            }
        }
    }
}

/// What reads as the rest of a message is how it is written.
proof fn lemma_body_was_written(tag: int, b: Seq<u8>)
    requires
        1 <= tag <= 3,
    ensures
        read_body(tag, b) matches Ok(message) ==> is_writable(message) && message.kind().tag()
            == tag && body_wire(message).is_prefix_of(b),
{
    lemma_limits();
    lemma_key_was_written(b);
    if let Ok(message) = read_body(tag, b) {
        let ((leaf, epoch), b1) = read_key(b)->Ok_0;
        if tag == 1 {
            assert(body_wire(message).is_prefix_of(b));
        } else {
            law_read_int_was_written(b1, 4);
            let (rank, b2) = read_int(b1, 4)->Ok_0;
            if tag == 2 {
                assert(b =~= body_wire(message) + b2);
            } else {
                law_read_framed_was_written(b2);
                let (list, b3) = read_framed(b2)->Ok_0;
                lemma_holders_were_written(list);
                assert(b =~= body_wire(message) + b3);
            }
        }
    }
}

/// What reads as a message starts with the message as it is written: no message has two
/// forms.
pub proof fn law_read_message_was_written(b: Seq<u8>)
    ensures
        read_message(b) matches Ok(message) ==> is_writable(message) && message_wire(
            message,
        ).is_prefix_of(b),
{
    lemma_limits();
    law_read_int_was_written(b, 1);
    if let Ok(message) = read_message(b) {
        let (tag, follows) = read_int(b, 1)->Ok_0;
        lemma_body_was_written(tag, follows);
        assert(be_bytes(tag, 1) =~= seq![tag as u8]) by {
            reveal_with_fuel(be_bytes, 2);
        }
        assert(message_wire(message).is_prefix_of(b));
    }
}

/// A message as it is written, byte for byte. Its first byte is 1, 2 or 3 by its kind. The index
/// of the ghost's leaf follows in four bytes, and the epoch of its key in eight, most
/// significant first. One that asks for shares goes on with the index of who asks, and one that
/// sends them with the index of who is to take them, in four bytes, and with the shares behind
/// their length. Each share is written as its leaf, epoch, id, in one byte, holder, in four, and
/// its bytes behind their length.
pub proof fn law_messages_are_written_field_by_field(message: QuarantineAppMessage)
    ensures
        message matches QuarantineAppMessage::QuarantineEnd(m) ==> message_wire(message@)
            == seq![1u8] + be_bytes(m.ghost_leaf.0 as int, 4) + be_bytes(m.key_epoch as int, 8),
        message matches QuarantineAppMessage::ShareRecovery(m) ==> message_wire(message@)
            == seq![2u8] + be_bytes(m.ghost_leaf.0 as int, 4) + be_bytes(m.key_epoch as int, 8)
            + be_bytes(m.requester_rank as int, 4),
        message matches QuarantineAppMessage::ShareResend(m) ==> message_wire(message@)
            == seq![3u8] + be_bytes(m.ghost_leaf.0 as int, 4) + be_bytes(m.key_epoch as int, 8)
            + be_bytes(m.target_rank as int, 4) + framed(
            Seq::new(
                m.shares@.len(),
                |i: int|
                    be_bytes(m.shares@[i].ghost_leaf.0 as int, 4) + be_bytes(
                        m.shares@[i].key_epoch as int,
                        8,
                    ) + seq![m.shares@[i].share_id] + be_bytes(m.shares@[i].holder_rank as int, 4)
                        + framed(m.shares@[i].share_value@),
            ).flatten(),
        ),
{
    match message {
        QuarantineAppMessage::QuarantineEnd(m) => {
            assert(message_wire(message@) =~= seq![1u8] + be_bytes(m.ghost_leaf.0 as int, 4)
                + be_bytes(m.key_epoch as int, 8));
        },
        QuarantineAppMessage::ShareRecovery(m) => {
            assert(message_wire(message@) =~= seq![2u8] + be_bytes(m.ghost_leaf.0 as int, 4)
                + be_bytes(m.key_epoch as int, 8) + be_bytes(m.requester_rank as int, 4));
        },
        QuarantineAppMessage::ShareResend(m) => {
            let parts = Seq::new(
                m.shares@.len(),
                |i: int|
                    be_bytes(m.shares@[i].ghost_leaf.0 as int, 4) + be_bytes(
                        m.shares@[i].key_epoch as int,
                        8,
                    ) + seq![m.shares@[i].share_id] + be_bytes(m.shares@[i].holder_rank as int, 4)
                        + framed(m.shares@[i].share_value@),
            );
            let views = holder_views(m.shares@);
            let wires = Seq::new(views.len(), |i: int| holder_wire(views[i]));
            assert(wires =~= parts) by {
                assert forall|i: int| 0 <= i < views.len() implies wires[i] == parts[i] by {
                    assert(views[i] == m.shares@[i]@);
                    lemma_one_byte(m.shares@[i].share_id);
                    assert(holder_wire(views[i]) =~= parts[i]);
                }
            }
            law_blocks_stand_in_a_row(Seq::empty(), 0, 0, wires);
            assert(holders_wire(views) == parts.flatten());
            assert(message_wire(message@) =~= seq![3u8] + be_bytes(m.ghost_leaf.0 as int, 4)
                + be_bytes(m.key_epoch as int, 8) + be_bytes(m.target_rank as int, 4) + framed(
                parts.flatten(),
            ));
        },
    }
}

/// One digit is the byte itself.
proof fn lemma_one_byte(x: u8)
    ensures
        be_bytes(x as int, 1) == seq![x],
{
    reveal_with_fuel(be_bytes, 2);
    assert(be_bytes(x as int, 1) =~= seq![x]);
}

/// A message can be written exactly if the shares in it, and the bytes of each, are not too long
/// for their length to be written.
pub proof fn law_lengths_limit_what_is_written(message: QuarantineAppMessage)
    ensures
        !(message is ShareResend) ==> is_writable(message@),
        message matches QuarantineAppMessage::ShareResend(m) ==> (is_writable(message@) <==> (
        forall|i: int|
            0 <= i < m.shares@.len() ==> (#[trigger] m.shares@[i]).share_value@.len()
                < 0x4000_0000) && holders_wire(holder_views(m.shares@)).len() < 0x4000_0000),
{
    if let QuarantineAppMessage::ShareResend(m) = message {
        let views = holder_views(m.shares@);
        if is_writable(message@) {
            assert forall|i: int| 0 <= i < m.shares@.len() implies (
            #[trigger] m.shares@[i]).share_value@.len() < 0x4000_0000 by {
                assert(views[i].share_value.len() < 0x4000_0000);
            }
        }
        if forall|i: int|
            0 <= i < m.shares@.len() ==> (#[trigger] m.shares@[i]).share_value@.len()
                < 0x4000_0000 {
            assert forall|i: int| 0 <= i < views.len() implies (
            #[trigger] views[i]).share_value.len() < 0x4000_0000 by {
                assert(m.shares@[i].share_value@.len() < 0x4000_0000);
            }
        }
    }
}

/// Why bytes are no message. Without a first byte, or with one that is followed by too little
/// for its kind, there is too little to read; a first byte of no kind is refused at once. The
/// list of shares that is sent is refused for the reason for which its length cannot be read, or
/// its first share that cannot.
pub proof fn law_reading_says_what_is_wrong(b: Seq<u8>)
    ensures
        b.len() == 0 ==> read_message(b) == Err::<QuarantineAppMessageView, _>(
            CodecError::UnexpectedEOF,
        ),
        b.len() > 0 && (b[0] == 0 || b[0] > 3) ==> read_message(b) == Err::<
            QuarantineAppMessageView,
            _,
        >(CodecError::UnsupportedEnumDiscriminant),
        b.len() > 0 && 1 <= b[0] <= 3 && b.len() < 13 ==> read_message(b) == Err::<
            QuarantineAppMessageView,
            _,
        >(CodecError::UnexpectedEOF),
        b.len() > 0 && 2 <= b[0] <= 3 && b.len() < 17 ==> read_message(b) == Err::<
            QuarantineAppMessageView,
            _,
        >(CodecError::UnexpectedEOF),
        b.len() >= 13 && b[0] == 1 ==> read_message(b) is Ok,
        b.len() >= 17 && b[0] == 2 ==> read_message(b) is Ok,
        b.len() >= 17 && b[0] == 3 && read_framed(b.skip(17)) is Err ==> read_message(b) == Err::<
            QuarantineAppMessageView,
            _,
        >(read_framed(b.skip(17))->Err_0),
        b.len() >= 17 && b[0] == 3 && read_framed(b.skip(17)) is Ok && read_holders(
            read_framed(b.skip(17))->Ok_0.0,
        ) is Err ==> read_message(b) == Err::<QuarantineAppMessageView, _>(
            read_holders(read_framed(b.skip(17))->Ok_0.0)->Err_0,
        ),
        b.len() >= 17 && b[0] == 3 && read_framed(b.skip(17)) is Ok && read_holders(
            read_framed(b.skip(17))->Ok_0.0,
        ) is Ok ==> read_message(b) is Ok,
{
    if b.len() > 0 {
        let head = b.take(1);
        assert(be_value(head) == b[0]) by {
            reveal_with_fuel(be_value, 2);
            assert(head.drop_last().len() == 0);
        }
        let rest = b.skip(1);
        if b.len() >= 13 {
            assert(rest.skip(4).skip(8) =~= b.skip(13));
        }
        if b.len() >= 17 {
            assert(b.skip(13).skip(4) =~= b.skip(17));
        }
    }
}

/// Why bytes are no list of shares: the first share that cannot be read decides. A share takes
/// 17 bytes and its own, behind their length.
pub proof fn law_first_bad_share_decides(b: Seq<u8>)
    ensures
        b.len() == 0 ==> read_holders(b) == Ok::<_, CodecError>(Seq::<GhostShareHolderView>::empty()),
        b.len() < 17 ==> read_holder(b) == Err::<(GhostShareHolderView, Seq<u8>), _>(
            CodecError::UnexpectedEOF,
        ),
        b.len() >= 17 && read_framed(b.skip(17)) is Err ==> read_holder(b) == Err::<
            (GhostShareHolderView, Seq<u8>),
            _,
        >(read_framed(b.skip(17))->Err_0),
        b.len() >= 17 && read_framed(b.skip(17)) is Ok ==> read_holder(b) is Ok && read_holder(
            b,
        )->Ok_0.0.share_value == read_framed(b.skip(17))->Ok_0.0 && read_holder(b)->Ok_0.1
            == read_framed(b.skip(17))->Ok_0.1 && read_holder(b)->Ok_0.0.share_id == b[12],
        b.len() > 0 && read_holder(b) is Err ==> read_holders(b) == Err::<
            Seq<GhostShareHolderView>,
            _,
        >(read_holder(b)->Err_0),
        b.len() > 0 && read_holder(b) is Ok && read_holders(read_holder(b)->Ok_0.1) is Err
            ==> read_holders(b) == Err::<Seq<GhostShareHolderView>, _>(
            read_holders(read_holder(b)->Ok_0.1)->Err_0,
        ),
        b.len() > 0 && read_holder(b) is Ok && read_holders(read_holder(b)->Ok_0.1) is Ok
            ==> read_holders(b) == Ok::<_, CodecError>(
            seq![read_holder(b)->Ok_0.0] + read_holders(read_holder(b)->Ok_0.1)->Ok_0,
        ),
{
    lemma_limits();
    if b.len() >= 12 {
        assert(b.skip(4).skip(8) =~= b.skip(12));
    }
    if b.len() >= 13 {
        assert(b.skip(12).skip(1) =~= b.skip(13));
    }
    if b.len() >= 17 {
        assert(b.skip(13).skip(4) =~= b.skip(17));
    }
    lemma_holder_was_written(b);
    if b.len() >= 13 {
        let id = b.skip(12).take(1);
        assert(id[0] == b[12]);
        assert(be_value(id) == b[12]) by {
            reveal_with_fuel(be_value, 2);
            assert(id.drop_last().len() == 0);
        }
    }
    if b.len() >= 17 && read_framed(b.skip(17)) is Ok {
        let (data, rest) = read_framed(b.skip(17))->Ok_0;
        law_read_framed_was_written(b.skip(17));
        assert(rest.len() < b.len());
    }
}

/// Each message is of the kind that it is named after, and each kind has a first byte of its own.
pub proof fn law_kinds_have_bytes_of_their_own(message: QuarantineAppMessage)
    ensures
        message is QuarantineEnd ==> message@.kind() is QuarantineEnd,
        message is ShareRecovery ==> message@.kind() is ShareRecovery,
        message is ShareResend ==> message@.kind() is ShareResend,
        QuarantineAppMessageType::QuarantineEnd.tag() == 1,
        QuarantineAppMessageType::ShareRecovery.tag() == 2,
        QuarantineAppMessageType::ShareResend.tag() == 3,
{
}

} // verus!
