use mls_rs_codec::{MlsDecode, MlsEncode, VarInt};
use qtreekem::codec::{append_framed, take_framed, take_int, CodecError};
use qtreekem::error::{MlsError, SerializationCause};
use qtreekem::leaf::LeafIndex;
use qtreekem::quarantine_messages::{
    QuarantineAppMessage, QuarantineAppMessageType, QuarantineEnd, ShareRecovery, ShareResend,
};
use qtreekem::tree_kem_private::GhostShareHolder;

fn holder(id: u8, value: Vec<u8>) -> GhostShareHolder {
    GhostShareHolder {
        ghost_leaf: LeafIndex(0x01020304),
        key_epoch: 0x1112131415161718,
        share_id: id,
        holder_rank: 0x21222324,
        share_value: value,
    }
}

fn resend(shares: Vec<GhostShareHolder>) -> QuarantineAppMessage {
    QuarantineAppMessage::ShareResend(ShareResend {
        ghost_leaf: LeafIndex(7),
        key_epoch: 9,
        target_rank: 11,
        shares,
    })
}

fn codec_error(e: CodecError) -> MlsError {
    MlsError::SerializationError(SerializationCause::Codec(e))
}

#[test]
fn messages_are_written_byte_by_byte() {
    let end = QuarantineAppMessage::QuarantineEnd(QuarantineEnd {
        ghost_leaf: LeafIndex(0x01020304),
        key_epoch: 0x1112131415161718,
    });
    assert_eq!(
        end.encode_to_bytes().unwrap(),
        vec![1, 1, 2, 3, 4, 0x11, 0x12, 0x13, 0x14, 0x15, 0x16, 0x17, 0x18]
    );
    assert_eq!(end.message_type(), QuarantineAppMessageType::QuarantineEnd);

    let ask = QuarantineAppMessage::ShareRecovery(ShareRecovery {
        ghost_leaf: LeafIndex(5),
        key_epoch: 6,
        requester_rank: 0x0a0b0c0d,
    });
    assert_eq!(
        ask.encode_to_bytes().unwrap(),
        vec![2, 0, 0, 0, 5, 0, 0, 0, 0, 0, 0, 0, 6, 0x0a, 0x0b, 0x0c, 0x0d]
    );

    let answer = resend(vec![holder(3, vec![0xaa, 0xbb])]);
    assert_eq!(
        answer.encode_to_bytes().unwrap(),
        vec![
            3, 0, 0, 0, 7, 0, 0, 0, 0, 0, 0, 0, 9, 0, 0, 0, 11, 20, 1, 2, 3, 4, 0x11, 0x12, 0x13,
            0x14, 0x15, 0x16, 0x17, 0x18, 3, 0x21, 0x22, 0x23, 0x24, 2, 0xaa, 0xbb
        ]
    );
    assert_eq!(QuarantineAppMessageType::QuarantineEnd.wire_tag(), 1);
    assert_eq!(QuarantineAppMessageType::ShareRecovery.wire_tag(), 2);
    assert_eq!(QuarantineAppMessageType::ShareResend.wire_tag(), 3);
}

#[test]
fn written_messages_read_back() {
    let messages = vec![
        QuarantineAppMessage::QuarantineEnd(QuarantineEnd {
            ghost_leaf: LeafIndex(u32::MAX),
            key_epoch: u64::MAX,
        }),
        QuarantineAppMessage::ShareRecovery(ShareRecovery {
            ghost_leaf: LeafIndex(0),
            key_epoch: 0,
            requester_rank: 1,
        }),
        resend(vec![]),
        resend(vec![holder(1, vec![]), holder(255, vec![5; 63]), holder(2, vec![6; 64])]),
        resend(vec![holder(1, vec![7; 16383]), holder(2, vec![8; 16384])]),
    ];
    for message in messages {
        let mut bytes = message.encode_to_bytes().unwrap();
        assert_eq!(QuarantineAppMessage::decode_from_bytes(&bytes).unwrap(), message);
        // What follows is of no account.
        bytes.extend_from_slice(&[1, 2, 3]);
        assert_eq!(QuarantineAppMessage::decode_from_bytes(&bytes).unwrap(), message);
    }
}

#[test]
fn cut_messages_are_refused() {
    let bytes = resend(vec![holder(3, vec![0xaa, 0xbb])]).encode_to_bytes().unwrap();
    for n in 0..bytes.len() {
        assert_eq!(
            QuarantineAppMessage::decode_from_bytes(&bytes[..n]),
            Err(codec_error(CodecError::UnexpectedEOF))
        );
    }
}

#[test]
fn malformed_messages_are_refused() {
    for tag in [0u8, 4, 255] {
        let mut bytes = vec![0u8; 40];
        bytes[0] = tag;
        assert_eq!(
            QuarantineAppMessage::decode_from_bytes(&bytes),
            Err(codec_error(CodecError::UnsupportedEnumDiscriminant))
        );
    }
    let mut bytes = resend(vec![]).encode_to_bytes().unwrap();
    assert_eq!(bytes.pop(), Some(0));
    let with = |length: &[u8]| {
        let mut bytes = bytes.clone();
        bytes.extend_from_slice(length);
        QuarantineAppMessage::decode_from_bytes(&bytes)
    };
    assert_eq!(with(&[0xc0]), Err(codec_error(CodecError::InvalidVarIntPrefix(3))));
    assert_eq!(with(&[0x40, 0x05]), Err(codec_error(CodecError::VarIntMinimumLengthEncoding)));
    assert_eq!(with(&[0x40]), Err(codec_error(CodecError::UnexpectedEOF)));
    assert_eq!(with(&[1]), Err(codec_error(CodecError::UnexpectedEOF)));
    assert_eq!(with(&[1, 9]), Err(codec_error(CodecError::UnexpectedEOF)));
}

#[test]
fn lengths_are_those_of_the_codec() {
    for n in [0usize, 1, 63, 64, 300, 16383, 16384, 70000] {
        let data = vec![0x5au8; n];
        let mut framed = vec![0xee];
        append_framed(&mut framed, &data).unwrap();
        let mut expected = vec![0xee];
        VarInt::try_from(n).unwrap().mls_encode(&mut expected).unwrap();
        expected.extend_from_slice(&data);
        assert_eq!(framed, expected);

        let mut reader = &framed[1..];
        assert_eq!(u32::from(VarInt::mls_decode(&mut reader).unwrap()) as usize, n);
        let (inner, rest) = take_framed(&framed[1..]).unwrap();
        assert_eq!(inner, &data[..]);
        assert!(rest.is_empty());
    }
    assert!(VarInt::try_from(0x4000_0000usize).is_err());
}

#[test]
fn integers_are_read_most_significant_byte_first() {
    let bytes = [1u8, 2, 3, 4, 5];
    assert_eq!(take_int(&bytes, 2), Ok((0x0102, &bytes[2..])));
    assert_eq!(take_int(&bytes, 0), Ok((0, &bytes[..])));
    assert_eq!(take_int(&[0xff; 8], 8), Ok((u64::MAX, &[][..])));
    assert_eq!(take_int(&bytes, 8), Err(CodecError::UnexpectedEOF));
}

#[test]
fn what_is_too_long_is_not_written() {
    let long = vec![0u8; 0x4000_0000];
    let mut out = vec![1];
    assert_eq!(append_framed(&mut out, &long), Err(CodecError::VarIntOutOfRange));
    assert_eq!(out, vec![1]);
    assert_eq!(
        resend(vec![holder(1, long)]).encode_to_bytes(),
        Err(codec_error(CodecError::VarIntOutOfRange))
    );
}
