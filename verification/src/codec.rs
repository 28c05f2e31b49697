//! The wire format of integers, byte strings and lists.
//!
//! Integers of fixed size are written most significant byte first. A byte string or a
//! list is preceded by the number of its bytes, in a form of variable length whose first
//! two bits say whether it takes one, two or four bytes.

use crate::bytes::{
    append, be_bytes, be_limit, be_value, lemma_be_bytes_of_value, lemma_be_value_of_bytes,
};
use mls_rs_codec::{MlsDecode, MlsEncode, VarInt};
use vstd::prelude::*;
use vstd::slice::slice_subrange;

verus! {

/// Why bytes could not be written or read.
#[derive(Clone, Copy, Debug, PartialEq, Eq, Structural)]
pub enum CodecError {
    UnexpectedEOF,
    VarIntOutOfRange,
    InvalidVarIntPrefix(u8),
    VarIntMinimumLengthEncoding,
    UnsupportedEnumDiscriminant,
    InvalidContent,
}

/// One more than the greatest length that can be written.
pub const LENGTH_LIMIT: usize = 0x4000_0000;

/// How many bytes the length `n` takes.
pub open spec fn varint_size(n: int) -> nat {
    if n < 0x40 {
        1
    } else if n < 0x4000 {
        2
    } else {
        4
    }
}

/// The length `n`, as it is written.
pub open spec fn varint(n: int) -> Seq<u8> {
    if n < 0x40 {
        be_bytes(n, 1)
    } else if n < 0x4000 {
        be_bytes(n + 0x4000, 2)
    } else {
        be_bytes(n + 0x8000_0000, 4)
    }
}

/// The length at the start of `b`, and what follows it.
pub open spec fn read_varint(b: Seq<u8>) -> Result<(int, Seq<u8>), CodecError> {
    if b.len() == 0 {
        Err(CodecError::UnexpectedEOF)
    } else if b[0] >= 0xc0 {
        Err(CodecError::InvalidVarIntPrefix(3))
    } else {
        let size: nat = if b[0] < 0x40 {
            1
        } else if b[0] < 0x80 {
            2
        } else {
            4
        };
        let n = be_value(b.take(size as int).update(0, (b[0] % 0x40) as u8));
        if b.len() < size {
            Err(CodecError::UnexpectedEOF)
        } else if varint_size(n) != size {
            Err(CodecError::VarIntMinimumLengthEncoding)
        } else {
            Ok((n, b.skip(size as int)))
        }
    }
}

/// `VarInt::try_from` and `MlsEncode::mls_encode_to_vec` on the result: the length `n`,
/// as it is written. A length of more than 30 bits is refused.
#[verifier::external_body]
fn encode_varint(n: usize) -> (res: Result<Vec<u8>, CodecError>)
    ensures
        res is Ok <==> n < LENGTH_LIMIT,
        res is Ok ==> res->Ok_0@ == varint(n as int),
        res is Err ==> res->Err_0 == CodecError::VarIntOutOfRange,
{
    VarInt::try_from(n).and_then(|v| v.mls_encode_to_vec()).map_err(|_| CodecError::VarIntOutOfRange)
}

/// `MlsDecode::mls_decode` of `VarInt`: the length at the start of `data`, and what
/// follows it. A form that is longer than it has to be is refused.
#[verifier::external_body]
fn decode_varint<'a>(data: &'a [u8]) -> (res: Result<(u32, &'a [u8]), CodecError>)
    ensures
        match res {
            Ok((n, rest)) => read_varint(data@) == Ok::<_, CodecError>((n as int, rest@)),
            Err(e) => read_varint(data@) == Err::<(int, Seq<u8>), _>(e),
        },
{
    let mut reader = data;
    match VarInt::mls_decode(&mut reader) {
        Ok(n) => Ok((n.into(), reader)),
        Err(mls_rs_codec::Error::UnexpectedEOF) => Err(CodecError::UnexpectedEOF),
        Err(mls_rs_codec::Error::InvalidVarIntPrefix(p)) => Err(CodecError::InvalidVarIntPrefix(p)),
        Err(mls_rs_codec::Error::VarIntMinimumLengthEncoding) => {
            Err(CodecError::VarIntMinimumLengthEncoding)
        },
        Err(_) => Err(CodecError::InvalidContent),
    }
}

/// Bytes as they are written, behind their length.
pub open spec fn framed(data: Seq<u8>) -> Seq<u8> {
    varint(data.len() as int) + data
}

/// The integer in the first `k` bytes of `b`, and what follows it.
pub open spec fn read_int(b: Seq<u8>, k: nat) -> Result<(int, Seq<u8>), CodecError> {
    if b.len() < k {
        Err(CodecError::UnexpectedEOF)
    } else {
        Ok((be_value(b.take(k as int)), b.skip(k as int)))
    }
}

/// The bytes that stand behind their length at the start of `b`, and what follows them.
pub open spec fn read_framed(b: Seq<u8>) -> Result<(Seq<u8>, Seq<u8>), CodecError> {
    match read_varint(b) {
        Err(e) => Err(e),
        Ok((n, rest)) => if n > rest.len() {
            Err(CodecError::UnexpectedEOF)
        } else {
            Ok((rest.take(n), rest.skip(n)))
        },
    }
}

/// Appends bytes behind their length.
pub fn append_framed(out: &mut Vec<u8>, data: &[u8]) -> (res: Result<(), CodecError>)
    ensures
        match res {
            Ok(_) => data@.len() < LENGTH_LIMIT && final(out)@ == old(out)@ + framed(data@),
            Err(e) => {
                &&& data@.len() >= LENGTH_LIMIT
                &&& e == CodecError::VarIntOutOfRange
                &&& final(out)@ == old(out)@
            },
        },
{
    let ghost before = out@;
    match encode_varint(data.len()) {
        Err(e) => Err(e),
        Ok(length) => {
            append(out, length.as_slice());
            append(out, data);
            assert(out@ =~= before + framed(data@));
            Ok(())
        },
    }
}

/// Reads an integer of `k` bytes.
pub fn take_int<'a>(data: &'a [u8], k: usize) -> (res: Result<(u64, &'a [u8]), CodecError>)
    requires
        k <= 8,
    ensures
        match res {
            Ok((n, rest)) => read_int(data@, k as nat) == Ok::<_, CodecError>((n as int, rest@))
                && n < be_limit(k as nat),
            Err(e) => read_int(data@, k as nat) == Err::<(int, Seq<u8>), _>(e),
        },
{
    let len: usize = data.len();
    if len < k {
        return Err(CodecError::UnexpectedEOF);
    }
    let mut n: u64 = 0;
    let mut i: usize = 0;
    assert(data@.take(0) =~= Seq::empty());
    while i < k
        invariant
            0 <= i <= k <= 8,
            k <= len,
            len == data@.len(),
            n == be_value(data@.take(i as int)),
        decreases k - i,
    {
        proof {
            assert(data@.take(i + 1).drop_last() =~= data@.take(i as int));
            assert(data@.take(i + 1).last() == data@[i as int]);
            lemma_be_bytes_of_value(data@.take(i + 1));
            lemma_limit_of_u64(i as nat + 1);
        }
        n = 256 * n + data[i] as u64;
        i += 1;
    }
    proof {
        lemma_be_bytes_of_value(data@.take(k as int));
        assert(data@.skip(k as int) =~= data@.subrange(k as int, len as int));
    }
    Ok((n, slice_subrange(data, k, len)))
}

/// Reads bytes that stand behind their length.
pub fn take_framed<'a>(data: &'a [u8]) -> (res: Result<(&'a [u8], &'a [u8]), CodecError>)
    ensures
        match res {
            Ok((bytes, rest)) => read_framed(data@) == Ok::<_, CodecError>((bytes@, rest@)),
            Err(e) => read_framed(data@) == Err::<(Seq<u8>, Seq<u8>), _>(e),
        },
{
    match decode_varint(data) {
        Err(e) => Err(e),
        Ok((n, rest)) => {
            let len: usize = rest.len();
            if n as usize > len {
                return Err(CodecError::UnexpectedEOF);
            }
            assert(rest@.take(n as int) =~= rest@.subrange(0, n as int));
            assert(rest@.skip(n as int) =~= rest@.subrange(n as int, len as int));
            Ok((slice_subrange(rest, 0, n as usize), slice_subrange(rest, n as usize, len)))
        },
    }
}

/// Integers of up to eight bytes fit into 64 bits.
proof fn lemma_limit_of_u64(k: nat)
    requires
        k <= 8,
    ensures
        be_limit(k) <= 0x1_0000_0000_0000_0000,
    decreases 8 - k,
{
    reveal_with_fuel(be_limit, 9);
}

/// Reading an integer that was written gives it back.
pub proof fn law_read_written_int(n: int, k: nat, rest: Seq<u8>)
    requires
        0 <= n < be_limit(k),
    ensures
        read_int(be_bytes(n, k) + rest, k) == Ok::<_, CodecError>((n, rest)),
{
    lemma_be_value_of_bytes(n, k);
    let b = be_bytes(n, k) + rest;
    assert(b.take(k as int) =~= be_bytes(n, k));
    assert(b.skip(k as int) =~= rest);
}

/// Reading a length that was written gives it back.
pub proof fn law_read_written_varint(n: int, rest: Seq<u8>)
    requires
        0 <= n < LENGTH_LIMIT,
    ensures
        read_varint(varint(n) + rest) == Ok::<_, CodecError>((n, rest)),
{
    let size = varint_size(n);
    let b = varint(n) + rest;
    lemma_be_limits();
    lemma_be_value_of_bytes(n, size);
    lemma_digits(n);
    if n < 0x40 {
        assert(b.take(1).update(0, (b[0] % 0x40) as u8) =~= be_bytes(n, 1));
    } else if n < 0x4000 {
        lemma_digits(n + 0x4000);
        assert(b.take(2).update(0, (b[0] % 0x40) as u8) =~= be_bytes(n, 2));
    } else {
        lemma_digits(n + 0x8000_0000);
        let m = n + 0x8000_0000;
        assert(m / 256 == n / 256 + 0x80_0000);
        assert(m / 256 / 256 == n / 256 / 256 + 0x8000);
        assert(m / 256 / 256 / 256 == n / 256 / 256 / 256 + 0x80);
        assert(b.take(4).update(0, (b[0] % 0x40) as u8) =~= be_bytes(n, 4));
    }
    assert(b.skip(size as int) =~= rest);
}

/// The limits of integers of one, two and four bytes.
proof fn lemma_be_limits()
    ensures
        be_limit(1) == 0x100,
        be_limit(2) == 0x1_0000,
        be_limit(4) == 0x1_0000_0000,
{
    reveal_with_fuel(be_limit, 5);
}

/// One, two and four digits, one by one.
proof fn lemma_digits(n: int)
    ensures
        be_bytes(n, 1) == seq![(n % 256) as u8],
        be_bytes(n, 2) == seq![(n / 256 % 256) as u8, (n % 256) as u8],
        be_bytes(n, 4) == seq![
            (n / 256 / 256 / 256 % 256) as u8,
            (n / 256 / 256 % 256) as u8,
            (n / 256 % 256) as u8,
            (n % 256) as u8,
        ],
{
    let n1 = n / 256;
    let n2 = n1 / 256;
    let n3 = n2 / 256;
    assert(be_bytes(n3, 1) =~= seq![(n3 % 256) as u8]) by {
        reveal_with_fuel(be_bytes, 2);
    }
    assert(be_bytes(n2, 2) =~= be_bytes(n3, 1).push((n2 % 256) as u8));
    assert(be_bytes(n1, 3) =~= be_bytes(n2, 2).push((n1 % 256) as u8));
    assert(be_bytes(n, 4) =~= be_bytes(n1, 3).push((n % 256) as u8));
    assert(be_bytes(n1, 1) =~= seq![(n1 % 256) as u8]) by {
        reveal_with_fuel(be_bytes, 2);
    }
    assert(be_bytes(n, 2) =~= be_bytes(n1, 1).push((n % 256) as u8));
    assert(be_bytes(n, 1) =~= seq![(n % 256) as u8]) by {
        reveal_with_fuel(be_bytes, 2);
    }
}

/// Reading bytes that were written behind their length gives them back.
pub proof fn law_read_framed_bytes(data: Seq<u8>, rest: Seq<u8>)
    requires
        data.len() < LENGTH_LIMIT,
    ensures
        read_framed(framed(data) + rest) == Ok::<_, CodecError>((data, rest)),
{
    law_read_written_varint(data.len() as int, data + rest);
    assert(framed(data) + rest =~= varint(data.len() as int) + (data + rest));
    assert((data + rest).take(data.len() as int) =~= data);
    assert((data + rest).skip(data.len() as int) =~= rest);
}

/// The value of four digits.
proof fn lemma_four_digits(b: Seq<u8>)
    requires
        b.len() == 4,
    ensures
        be_value(b) == ((b[0] * 256 + b[1]) * 256 + b[2]) * 256 + b[3],
{
    let b3 = b.drop_last();
    let b2 = b3.drop_last();
    lemma_two_digits(b2);
    assert(be_value(b3) == 256 * be_value(b2) + b3.last());
    assert(be_value(b) == 256 * be_value(b3) + b.last());
}

/// The value of two digits.
proof fn lemma_two_digits(b: Seq<u8>)
    requires
        b.len() == 2,
    ensures
        be_value(b) == b[0] * 256 + b[1],
{
    lemma_one_digit(b.drop_last());
    assert(be_value(b) == 256 * be_value(b.drop_last()) + b.last());
}

/// The value of one digit.
proof fn lemma_one_digit(b: Seq<u8>)
    requires
        b.len() == 1,
    ensures
        be_value(b) == b[0],
{
    assert(be_value(b.drop_last()) == 0);
    assert(be_value(b) == 256 * be_value(b.drop_last()) + b.last());
}

/// What reads as an integer is how the integer is written.
pub proof fn law_read_int_was_written(b: Seq<u8>, k: nat)
    ensures
        read_int(b, k) matches Ok((n, rest)) ==> 0 <= n < be_limit(k) && b == be_bytes(n, k)
            + rest,
{
    if b.len() >= k {
        lemma_be_bytes_of_value(b.take(k as int));
        assert(b =~= b.take(k as int) + b.skip(k as int));
    }
}

/// What reads as a length is how the length is written: no length has two forms.
pub proof fn law_read_varint_was_written(b: Seq<u8>)
    ensures
        read_varint(b) matches Ok((n, rest)) ==> 0 <= n < LENGTH_LIMIT && b == varint(n) + rest,
{
    if let Ok((n, rest)) = read_varint(b) {
        if b[0] < 0x40 {
            let head = b.take(1);
            assert(head.update(0, (b[0] % 0x40) as u8) =~= head);
            lemma_one_digit(head);
            lemma_be_bytes_of_value(head);
            assert(b =~= head + b.skip(1));
        } else if b[0] < 0x80 {
            let head = b.take(2);
            lemma_two_digits(head);
            lemma_two_digits(head.update(0, (b[0] % 0x40) as u8));
            lemma_be_bytes_of_value(head);
            assert(be_value(head) == n + 0x4000);
            assert(b =~= head + b.skip(2));
        } else {
            let head = b.take(4);
            lemma_four_digits(head);
            lemma_four_digits(head.update(0, (b[0] % 0x40) as u8));
            lemma_be_bytes_of_value(head);
            assert(be_value(head) == n + 0x8000_0000);
            assert(b =~= head + b.skip(4));
        }
    }
}

/// What reads as bytes behind their length is how they are written.
pub proof fn law_read_framed_was_written(b: Seq<u8>)
    ensures
        read_framed(b) matches Ok((data, rest)) ==> data.len() < LENGTH_LIMIT && b == framed(data)
            + rest,
{
    law_read_varint_was_written(b);
    if let Ok((data, rest)) = read_framed(b) {
        let (n, follows) = read_varint(b)->Ok_0;
        assert(follows =~= data + rest);
        assert(b =~= framed(data) + rest);
    }
}

/// Bytes behind their length: the length comes first, in as few bytes as it fits into, and then
/// the bytes as they are.
pub proof fn law_length_stands_before_the_bytes(data: Seq<u8>, i: int)
    requires
        data.len() < 0x4000_0000,
    ensures
        ({
            let n = data.len();
            let size: int = if n < 0x40 {
                1
            } else if n < 0x4000 {
                2
            } else {
                4
            };
            &&& framed(data).len() == size + n
            &&& 0 <= i < n ==> framed(data)[size + i] == data[i]
            &&& framed(data).take(size) == varint(n as int)
            &&& n < 0x40 ==> framed(data)[0] == n
            &&& 0x40 <= n < 0x4000 ==> framed(data)[0] == 0x40 + n / 256 && framed(data)[1] == n
                % 256
            &&& 0x4000 <= n ==> framed(data)[0] == 0x80 + n / 0x100_0000 && framed(data)[1] == (n
                / 0x1_0000) % 256 && framed(data)[2] == (n / 256) % 256 && framed(data)[3] == n
                % 256
        }),
{
    let n = data.len() as int;
    lemma_written_length(n);
    assert(framed(data).take(varint(n).len() as int) =~= varint(n));
    if 0 <= i < n {
        assert(framed(data)[varint(n).len() + i] == data[i]);
    }
    assert(framed(data)[0] == varint(n)[0]);
}

/// The digits of two and of four bytes.
proof fn lemma_two_and_four_bytes(n: int)
    requires
        0 <= n < 0x1_0000_0000,
    ensures
        n < 0x1_0000 ==> be_bytes(n, 2) == seq![(n / 256) as u8, (n % 256) as u8],
        be_bytes(n, 4) == seq![
            (n / 0x100_0000) as u8,
            ((n / 0x1_0000) % 256) as u8,
            ((n / 256) % 256) as u8,
            (n % 256) as u8,
        ],
{
    reveal_with_fuel(be_bytes, 5);
    assert(n / 256 / 256 == n / 0x1_0000);
    assert(n / 256 / 256 / 256 == n / 0x100_0000);
    if n < 0x1_0000 {
        assert(be_bytes(n, 2) =~= seq![(n / 256) as u8, (n % 256) as u8]);
    }
    assert((n / 0x100_0000) % 256 == n / 0x100_0000);
    assert(be_bytes(n, 4) =~= seq![
        (n / 0x100_0000) as u8,
        ((n / 0x1_0000) % 256) as u8,
        ((n / 256) % 256) as u8,
        (n % 256) as u8,
    ]);
}

/// The mark of the size of a length is in its highest digit.
proof fn lemma_marked_length(n: int)
    requires
        0 <= n < 0x4000_0000,
    ensures
        (n + 0x4000) / 256 == 0x40 + n / 256,
        (n + 0x4000) % 256 == n % 256,
        (n + 0x8000_0000) / 0x100_0000 == 0x80 + n / 0x100_0000,
        ((n + 0x8000_0000) / 0x1_0000) % 256 == (n / 0x1_0000) % 256,
        ((n + 0x8000_0000) / 256) % 256 == (n / 256) % 256,
        (n + 0x8000_0000) % 256 == n % 256,
{
    let a = n / 0x1_0000;
    let b = n / 256;
    assert((n + 0x8000_0000) / 0x1_0000 == a + 0x8000);
    assert((a + 0x8000) % 256 == a % 256);
    assert((n + 0x8000_0000) / 256 == b + 0x80_0000);
    assert((b + 0x80_0000) % 256 == b % 256);
}

/// A length as it is written, byte for byte.
proof fn lemma_written_length(n: int)
    requires
        0 <= n < 0x4000_0000,
    ensures
        n < 0x40 ==> varint(n).len() == 1 && varint(n)[0] == n,
        0x40 <= n < 0x4000 ==> varint(n).len() == 2 && varint(n)[0] == 0x40 + n / 256 && varint(
            n,
        )[1] == n % 256,
        0x4000 <= n ==> varint(n).len() == 4 && varint(n)[0] == 0x80 + n / 0x100_0000 && varint(
            n,
        )[1] == (n / 0x1_0000) % 256 && varint(n)[2] == (n / 256) % 256 && varint(n)[3] == n % 256,
{
    if n < 0x40 {
        assert(be_bytes(n, 1) =~= seq![n as u8]) by {
            reveal_with_fuel(be_bytes, 2);
        }
    } else if n < 0x4000 {
        let w = n + 0x4000;
        lemma_two_and_four_bytes(w);
        lemma_marked_length(n);
        assert(varint(n) == seq![(w / 256) as u8, (w % 256) as u8]);
    } else {
        let w = n + 0x8000_0000;
        lemma_two_and_four_bytes(w);
        lemma_marked_length(n);
        assert(varint(n) == be_bytes(w, 4));
    }
}

/// Reading fails exactly if there is too little to read: an integer takes its bytes, and bytes
/// behind their length as many as the length says. A length that cannot be read is refused for
/// its own reason.
pub proof fn law_reading_fails_on_too_little(b: Seq<u8>, k: nat)
    ensures
        read_int(b, k) is Err <==> b.len() < k,
        read_int(b, k) is Err ==> read_int(b, k)->Err_0 == CodecError::UnexpectedEOF,
        read_int(b, k) is Ok ==> read_int(b, k)->Ok_0.1 == b.skip(k as int),
        read_varint(b) is Err ==> read_framed(b) == Err::<(Seq<u8>, Seq<u8>), _>(
            read_varint(b)->Err_0,
        ),
        read_varint(b) is Ok && read_varint(b)->Ok_0.0 > read_varint(b)->Ok_0.1.len()
            ==> read_framed(b) == Err::<(Seq<u8>, Seq<u8>), _>(CodecError::UnexpectedEOF),
        read_varint(b) is Ok && read_varint(b)->Ok_0.0 <= read_varint(b)->Ok_0.1.len()
            ==> read_framed(b) is Ok && read_framed(b)->Ok_0.0.len() == read_varint(b)->Ok_0.0
            && read_framed(b)->Ok_0.0 + read_framed(b)->Ok_0.1 == read_varint(b)->Ok_0.1,
{
    law_read_varint_was_written(b);
    if read_varint(b) is Ok {
        let (n, rest) = read_varint(b)->Ok_0;
        if n <= rest.len() {
            assert(rest.take(n) + rest.skip(n) =~= rest);
        }
    }
}

} // verus!
