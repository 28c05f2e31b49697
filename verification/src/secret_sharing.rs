//! Threshold sharing of seeds.
//!
//! A seed is written as base64 text, and the text is split by Shamir's scheme
//! over GF(256), byte by byte.

use crate::bytes::{contents, copy_bytes};
use base64::engine::general_purpose::STANDARD;
use base64::Engine;
use shamir::SecretData;
use vstd::prelude::*;
use vstd::utf8::encode_utf8;

verus! {

/// One share of a seed.
#[derive(Clone, Debug, PartialEq, Eq)]
pub struct ShareBytes {
    pub id: u8,
    pub bytes: Vec<u8>,
}

/// What can go wrong when a seed is split or recovered.
#[derive(Clone, Copy, Debug, PartialEq, Eq, Structural)]
pub enum SecretSharingError {
    InvalidThreshold,
    InvalidShareCount,
    EncodeFailed,
    SplitFailed,
    RecoverFailed,
    DecodeFailed,
}

/// `base64::DecodeError`, carried through to the place where it is mapped.
#[verifier::external_type_specification]
#[verifier::external_body]
pub struct ExDecodeError(base64::DecodeError);

/// `shamir::ShamirError`, carried through to the place where it is mapped.
#[verifier::external_type_specification]
#[verifier::external_body]
pub struct ExShamirError(shamir::ShamirError);

/// The text that the standard base64 alphabet with padding gives for `data`.
pub uninterp spec fn base64_text(data: Seq<u8>) -> Seq<char>;

/// The bytes that `text` stands for in base64, if it is valid.
pub uninterp spec fn base64_bytes(text: Seq<char>) -> Option<Seq<u8>>;

/// The share with the given id of the text behind the polynomials.
pub uninterp spec fn share_at(polynomials: Seq<Seq<u8>>, id: u8) -> Seq<u8>;

/// The text that interpolation through the given shares gives, if it gives one.
pub uninterp spec fn recovered_text(threshold: u8, shares: Seq<Seq<u8>>) -> Option<Seq<char>>;

/// `Engine::encode` of `base64::engine::general_purpose::STANDARD`. Decoding what it
/// returns gives the encoded bytes back, and no other text decodes to them: the decoder
/// of that engine asks for canonical padding, and refuses trailing bits that are not 0.
#[verifier::external_body]
fn encode_base64(data: &[u8]) -> (res: String)
    ensures
        res@ == base64_text(data@),
        base64_bytes(res@) == Some(data@),
        forall|text: Seq<char>| #[trigger] base64_bytes(text) == Some(data@) ==> text == res@,
{
    STANDARD.encode(data)
}

/// `Engine::decode` of `base64::engine::general_purpose::STANDARD`. No two texts decode to
/// the same bytes, as said of the encoder.
#[verifier::external_body]
fn decode_base64(text: &str) -> (res: Result<Vec<u8>, base64::DecodeError>)
    ensures
        res is Ok <==> base64_bytes(text@) is Some,
        res is Ok ==> base64_bytes(text@) == Some(res->Ok_0@),
        res is Ok ==> forall|other: Seq<char>| #[trigger]
            base64_bytes(other) == Some(res->Ok_0@) ==> other == text@,
{
    STANDARD.decode(text.as_bytes())
}

/// The shares with the given ids.
pub open spec fn shares_at(polynomials: Seq<Seq<u8>>, ids: Seq<u8>) -> Seq<Seq<u8>> {
    Seq::new(ids.len(), |i: int| share_at(polynomials, ids[i]))
}

/// Whether `ids` are distinct, and none of them is 0.
pub open spec fn share_ids(ids: Seq<u8>) -> bool {
    &&& forall|i: int| 0 <= i < ids.len() ==> #[trigger] ids[i] != 0
    &&& forall|i: int, j: int| 0 <= i < j < ids.len() ==> #[trigger] ids[i] != #[trigger] ids[j]
}

/// Whether any `threshold` shares with distinct ids give `text` back.
pub open spec fn recoverable(polynomials: Seq<Seq<u8>>, threshold: u8, text: Seq<char>) -> bool {
    forall|ids: Seq<u8>|
        share_ids(ids) && ids.len() == threshold ==> recovered_text(
            threshold,
            #[trigger] shares_at(polynomials, ids),
        ) == Some(text)
}

/// The byte of `share` at `m`, if it is long enough.
pub open spec fn byte_at(share: Seq<u8>, m: int) -> Option<u8> {
    if m < share.len() {
        Some(share[m])
    } else {
        None
    }
}

/// Whether each of `shares` begins with an id that is not 0.
pub open spec fn bear_ids(shares: Seq<Seq<u8>>) -> bool {
    forall|i: int| 0 <= i < shares.len() ==> (#[trigger] shares[i]).len() > 0 && shares[i][0] != 0
}

/// Whether `share` has at `m` the byte of the share with its id.
pub open spec fn agrees_at(polynomials: Seq<Seq<u8>>, share: Seq<u8>, m: int) -> bool {
    byte_at(share, m) == byte_at(share_at(polynomials, share[0]), m)
}

/// Whether exactly one of `shares`, the one at `k`, does not have at `m` the byte of the share
/// with its id.
pub open spec fn off_in_one(
    polynomials: Seq<Seq<u8>>,
    shares: Seq<Seq<u8>>,
    k: int,
    m: int,
) -> bool {
    &&& bear_ids(shares)
    &&& 0 <= k < shares.len()
    &&& 0 <= m
    &&& !agrees_at(polynomials, shares[k], m)
    &&& forall|i: int|
        0 <= i < shares.len() && i != k ==> agrees_at(polynomials, #[trigger] shares[i], m)
}

/// Whether `threshold` shares never give `text` back if there is a place at which exactly one
/// of them has a wrong byte.
pub open spec fn spoiled_by_one(polynomials: Seq<Seq<u8>>, threshold: u8, text: Seq<char>) -> bool {
    forall|shares: Seq<Seq<u8>>, k: int, m: int| #[trigger]
        off_in_one(polynomials, shares, k, m) && shares.len() == threshold ==> recovered_text(
            threshold,
            shares,
        ) != Some(text)
}

/// `SecretData::with_secret`: one polynomial over GF(256) for each byte of `text`,
/// with `threshold` coefficients, of which the first is the byte and the others are
/// drawn at random. Interpolation through any `threshold` of their values, at points
/// that are distinct and not 0, gives `text` back. It does not if for one of the bytes
/// exactly one of the values is wrong: what interpolation gives at 0 is a sum in which no
/// value has the factor 0. Nor does it if exactly one of the shares is too long or too short.
#[verifier::external_body]
fn share_polynomials(text: &str, threshold: u8) -> (res: Vec<Vec<u8>>)
    requires
        threshold > 0,
    ensures
        res@.len() == encode_utf8(text@).len(),
        forall|i: int|
            0 <= i < res@.len() ==> (#[trigger] res@[i])@.len() == threshold && res@[i]@[0]
                == encode_utf8(text@)[i],
        forall|ids: Seq<u8>|
            share_ids(ids) && ids.len() == threshold ==> recovered_text(
                threshold,
                #[trigger] shares_at(contents(res@), ids),
            ) == Some(text@),
        forall|shares: Seq<Seq<u8>>, k: int, m: int| #[trigger]
            off_in_one(contents(res@), shares, k, m) && shares.len() == threshold
                ==> recovered_text(threshold, shares) != Some(text@),
{
    SecretData::with_secret(text, threshold).coefficients
}

/// `SecretData::get_share`: the id, followed by the values that the polynomials take
/// there. The id 0, at which the values are the shared text, is refused.
#[verifier::external_body]
fn evaluate_share(polynomials: &Vec<Vec<u8>>, id: u8) -> (res: Result<Vec<u8>, shamir::ShamirError>)
    ensures
        res is Ok <==> id != 0,
        res is Ok ==> res->Ok_0@ == share_at(contents(polynomials@), id),
        res is Ok ==> res->Ok_0@.len() == polynomials@.len() + 1 && res->Ok_0@[0] == id,
{
    SecretData { secret_data: None, coefficients: polynomials.clone() }.get_share(id)
}

/// Whether the first `i + 1` shares are such that interpolation stops at share `i`: its
/// first byte was seen before, or it is not as long as the first share.
pub open spec fn stops_at(shares: Seq<Seq<u8>>, i: int) -> bool {
    ||| exists|j: int| 0 <= j < i && shares[j][0] == #[trigger] shares[i][0]
    ||| shares[i].len() != shares[0].len()
}

/// Whether interpolation never looks for the first byte of an empty share.
pub open spec fn readable(shares: Seq<Seq<u8>>) -> bool {
    forall|i: int|
        0 <= i < shares.len() && (#[trigger] shares[i]).len() == 0 ==> exists|k: int|
            0 <= k < i && #[trigger] stops_at(shares, k)
}

/// Whether `other` begins with the id of the share at `k`, and differs from it.
pub open spec fn is_rival(shares: Seq<Seq<u8>>, k: int, other: Seq<u8>) -> bool {
    &&& 0 <= k < shares.len()
    &&& other.len() > 0
    &&& other[0] == shares[k][0]
    &&& other != shares[k]
}

/// `SecretData::recover_secret`: what interpolation through all of the given shares
/// gives. It indexes the first byte of each share in turn. Where no id is 0, another share
/// with the same id in one place does not give the same text: each byte of the text is a sum
/// in which no value has the factor 0.
#[verifier::external_body]
fn interpolate(threshold: u8, shares: Vec<Vec<u8>>) -> (res: Option<String>)
    requires
        0 < threshold <= shares@.len(),
        readable(contents(shares@)),
    ensures
        res is Some <==> recovered_text(threshold, contents(shares@)) is Some,
        res is Some ==> recovered_text(threshold, contents(shares@)) == Some(res->0@),
        res is Some && bear_ids(contents(shares@)) ==> forall|k: int, other: Seq<u8>| #[trigger]
            is_rival(contents(shares@), k, other) ==> recovered_text(
                threshold,
                contents(shares@).update(k, other),
            ) != Some(res->0@),
{
    SecretData::recover_secret(threshold, shares)
}

/// The bytes of each share.
pub open spec fn share_contents(shares: Seq<ShareBytes>) -> Seq<Seq<u8>> {
    Seq::new(shares.len(), |i: int| shares[i].bytes@)
}

/// Whether `share` belongs to the text behind the polynomials.
pub open spec fn is_share_of(polynomials: Seq<Seq<u8>>, id: u8, share: Seq<u8>) -> bool {
    &&& id != 0
    &&& share == share_at(polynomials, id)
    &&& share.len() > 0
    &&& share[0] == id
}

/// Whether the polynomials share `seed`, so that any `threshold` shares give it back, and
/// do not if exactly one of them has a wrong byte at some place.
pub open spec fn shares_seed(polynomials: Seq<Seq<u8>>, threshold: u8, seed: Seq<u8>) -> bool {
    &&& base64_bytes(base64_text(seed)) == Some(seed)
    &&& forall|text: Seq<char>| #[trigger]
        base64_bytes(text) == Some(seed) ==> text == base64_text(seed)
    &&& recoverable(polynomials, threshold, base64_text(seed))
    &&& spoiled_by_one(polynomials, threshold, base64_text(seed))
}

/// Whether all of `shares` come from one split of `seed` with the given threshold.
pub open spec fn is_split(shares: Seq<ShareBytes>, threshold: u8, seed: Seq<u8>) -> bool {
    exists|polynomials: Seq<Seq<u8>>| #[trigger]
        shares_seed(polynomials, threshold, seed) && forall|i: int|
            0 <= i < shares.len() ==> is_share_of(
                polynomials,
                (#[trigger] shares[i]).id,
                shares[i].bytes@,
            )
}

/// Why a seed is not split, if it is not.
pub open spec fn split_error(threshold: u8, share_count: u8) -> Option<SecretSharingError> {
    if threshold == 0 {
        Some(SecretSharingError::InvalidThreshold)
    } else if share_count < threshold {
        Some(SecretSharingError::InvalidShareCount)
    } else {
        None
    }
}

/// Splits `seed` into `share_count` shares, with the ids from 1 on, of which any
/// `threshold` give it back.
pub fn split_seed_bytes(seed: &[u8], threshold: u8, share_count: u8) -> (res: Result<
    Vec<ShareBytes>,
    SecretSharingError,
>)
    ensures
        match split_error(threshold, share_count) {
            Some(e) => res == Err::<Vec<ShareBytes>, _>(e),
            None => {
                &&& res is Ok
                &&& res->Ok_0@.len() == share_count
                &&& forall|i: int|
                    0 <= i < share_count ==> (#[trigger] res->Ok_0@[i]).id == i + 1
                        && res->Ok_0@[i].bytes@.len() > 0 && res->Ok_0@[i].bytes@[0] == i + 1
                &&& is_split(res->Ok_0@, threshold, seed@)
            },
        },
{
    if threshold == 0 {
        return Err(SecretSharingError::InvalidThreshold);
    }
    if share_count == 0 || share_count < threshold {
        return Err(SecretSharingError::InvalidShareCount);
    }
    let text: String = encode_base64(seed);
    let polynomials: Vec<Vec<u8>> = share_polynomials(text.as_str(), threshold);
    let ghost p = contents(polynomials@);
    let mut out: Vec<ShareBytes> = Vec::new();
    let mut id: u8 = 0;
    while id < share_count
        invariant
            0 <= id <= share_count,
            p == contents(polynomials@),
            out@.len() == id,
            forall|i: int|
                0 <= i < id ==> (#[trigger] out@[i]).id == i + 1 && out@[i].bytes@.len() > 0
                    && out@[i].bytes@[0] == i + 1 && is_share_of(p, out@[i].id, out@[i].bytes@),
        decreases share_count - id,
    {
        id += 1;
        match evaluate_share(&polynomials, id) {
            Ok(bytes) => {
                out.push(ShareBytes { id, bytes });
            },
            Err(_) => {
                return Err(SecretSharingError::SplitFailed);
            },
        }
    }
    assert(shares_seed(p, threshold, seed@));
    Ok(out)
}

/// The seed that the shares give back, or why they give none.
pub open spec fn recovered_seed(threshold: u8, shares: Seq<Seq<u8>>) -> Result<
    Seq<u8>,
    SecretSharingError,
> {
    if threshold == 0 {
        Err(SecretSharingError::InvalidThreshold)
    } else if shares.len() < threshold {
        Err(SecretSharingError::RecoverFailed)
    } else {
        decoded_seed(recovered_text(threshold, shares.take(threshold as int)))
    }
}

/// The seed behind recovered text, or why there is none.
pub open spec fn decoded_seed(text: Option<Seq<char>>) -> Result<Seq<u8>, SecretSharingError> {
    match text {
        None => Err(SecretSharingError::RecoverFailed),
        Some(text) => match base64_bytes(text) {
            None => Err(SecretSharingError::DecodeFailed),
            Some(seed) => Ok(seed),
        },
    }
}

/// A result whose value is seen by its contents.
pub open spec fn seed_view(res: Result<Vec<u8>, SecretSharingError>) -> Result<
    Seq<u8>,
    SecretSharingError,
> {
    match res {
        Ok(seed) => Ok(seed@),
        Err(e) => Err(e),
    }
}

/// The seed behind the text that interpolation gave, if it gave any. No other text stands for
/// the same seed.
pub fn decode_recovered(text: Option<String>) -> (res: Result<Vec<u8>, SecretSharingError>)
    ensures
        seed_view(res) == decoded_seed(
            match text {
                Some(t) => Some(t@),
                None => None,
            },
        ),
        res is Ok ==> forall|other: Seq<char>| #[trigger]
            base64_bytes(other) == Some(res->Ok_0@) ==> other == text->0@,
{
    match text {
        None => Err(SecretSharingError::RecoverFailed),
        Some(text) => match decode_base64(text.as_str()) {
            Ok(seed) => Ok(seed),
            Err(_) => Err(SecretSharingError::DecodeFailed),
        },
    }
}

/// Recovers a seed from the first `threshold` of the given shares.
///
/// Of all shares with one id at most one gives a certain seed, with the other shares as they
/// are: what is put in the place of one share gives another seed or none.
pub fn recover_seed_bytes(threshold: u8, shares: &[ShareBytes]) -> (res: Result<
    Vec<u8>,
    SecretSharingError,
>)
    requires
        threshold <= shares@.len() ==> readable(share_contents(shares@).take(threshold as int)),
    ensures
        seed_view(res) == recovered_seed(threshold, share_contents(shares@)),
        res is Ok && bear_ids(share_contents(shares@).take(threshold as int)) ==> forall|
            k: int,
            other: Seq<u8>,
        |
            0 <= k < threshold && #[trigger] is_rival(share_contents(shares@), k, other)
                ==> recovered_seed(threshold, share_contents(shares@).update(k, other)) != Ok::<
                _,
                SecretSharingError,
            >(res->Ok_0@),
{
    if threshold == 0 {
        return Err(SecretSharingError::InvalidThreshold);
    }
    let n: usize = shares.len();
    if n < threshold as usize {
        return Err(SecretSharingError::RecoverFailed);
    }
    let mut taken: Vec<Vec<u8>> = Vec::new();
    let mut i: usize = 0;
    while i < threshold as usize
        invariant
            0 <= i <= threshold <= n,
            n == shares@.len(),
            taken@.len() == i,
            forall|j: int| 0 <= j < i ==> (#[trigger] taken@[j])@ == shares@[j].bytes@,
        decreases threshold - i,
    {
        taken.push(copy_bytes(shares[i].bytes.as_slice()));
        i += 1;
    }
    assert(contents(taken@) =~= share_contents(shares@).take(threshold as int));
    let ghost all = share_contents(shares@);
    let ghost used = contents(taken@);
    let text: Option<String> = interpolate(threshold, taken);
    let res: Result<Vec<u8>, SecretSharingError> = decode_recovered(text);
    proof {
        if res is Ok && bear_ids(used) {
            assert forall|k: int, other: Seq<u8>|
                0 <= k < threshold && #[trigger] is_rival(all, k, other) implies recovered_seed(
                threshold,
                all.update(k, other),
            ) != Ok::<_, SecretSharingError>(res->Ok_0@) by {
                assert(is_rival(used, k, other));
                assert(all.update(k, other).take(threshold as int) =~= used.update(k, other));
            }
        }
    }
    res
}

/// Whether `share` has the id and the bytes of one of `shares`.
pub open spec fn is_one_of(share: ShareBytes, shares: Seq<ShareBytes>) -> bool {
    exists|k: int|
        0 <= k < shares.len() && (#[trigger] shares[k]).id == share.id && shares[k].bytes@
            == share.bytes@
}

/// Any `threshold` shares with distinct ids that come from one split give the seed
/// back, whichever they are and in whatever order they stand.
pub proof fn law_any_threshold_of_a_split_recovers(
    threshold: u8,
    seed: Seq<u8>,
    split: Seq<ShareBytes>,
    picked: Seq<ShareBytes>,
)
    requires
        threshold > 0,
        is_split(split, threshold, seed),
        picked.len() >= threshold,
        forall|i: int| 0 <= i < threshold ==> is_one_of(#[trigger] picked[i], split),
        forall|i: int, j: int|
            0 <= i < j < threshold ==> (#[trigger] picked[i]).id != (#[trigger] picked[j]).id,
    ensures
        readable(share_contents(picked).take(threshold as int)),
        recovered_seed(threshold, share_contents(picked)) == Ok::<_, SecretSharingError>(seed),
{
    let p = choose|p: Seq<Seq<u8>>| #[trigger]
        shares_seed(p, threshold, seed) && forall|i: int|
            0 <= i < split.len() ==> is_share_of(p, (#[trigger] split[i]).id, split[i].bytes@);
    let ids = Seq::new(threshold as nat, |i: int| picked[i].id);
    let taken = share_contents(picked).take(threshold as int);
    assert forall|i: int| 0 <= i < threshold implies #[trigger] is_share_of(
        p,
        picked[i].id,
        picked[i].bytes@,
    ) by {
        assert(is_one_of(picked[i], split));
        let k = choose|k: int|
            0 <= k < split.len() && (#[trigger] split[k]).id == picked[i].id && split[k].bytes@
                == picked[i].bytes@;
        assert(is_share_of(p, split[k].id, split[k].bytes@));
    }
    assert forall|i: int| 0 <= i < threshold implies #[trigger] taken[i].len() > 0 by {
        assert(is_share_of(p, picked[i].id, picked[i].bytes@));
    }
    assert forall|i: int| 0 <= i < threshold implies #[trigger] ids[i] != 0 by {
        assert(is_share_of(p, picked[i].id, picked[i].bytes@));
    }
    assert(shares_at(p, ids) =~= taken) by {
        assert forall|i: int| 0 <= i < threshold implies shares_at(p, ids)[i] == taken[i] by {
            assert(is_share_of(p, picked[i].id, picked[i].bytes@));
        }
    }
    assert(recoverable(p, threshold, base64_text(seed)));
}

/// Whether `share` has at `m` the byte of a share of `split` with the id that it begins with.
pub open spec fn has_byte_of(split: Seq<ShareBytes>, share: Seq<u8>, m: int) -> bool {
    exists|j: int|
        0 <= j < split.len() && (#[trigger] split[j]).id == share[0] && byte_at(split[j].bytes@, m)
            == byte_at(share, m)
}

/// Whether `share` has at `m` another byte than a share of `split` with the id that it begins
/// with.
pub open spec fn lacks_byte_of(split: Seq<ShareBytes>, share: Seq<u8>, m: int) -> bool {
    exists|j: int|
        0 <= j < split.len() && (#[trigger] split[j]).id == share[0] && byte_at(split[j].bytes@, m)
            != byte_at(share, m)
}

/// Where byte strings differ.
proof fn lemma_differ_at(a: Seq<u8>, b: Seq<u8>) -> (m: int)
    requires
        a != b,
    ensures
        0 <= m,
        byte_at(a, m) != byte_at(b, m),
{
    if a.len() < b.len() {
        a.len() as int
    } else if b.len() < a.len() {
        b.len() as int
    } else {
        let m = choose|m: int| 0 <= m < a.len() && a[m] != b[m];
        assert(exists|m: int| 0 <= m < a.len() && a[m] != b[m]) by {
            if forall|m: int| 0 <= m < a.len() ==> a[m] == b[m] {
                assert(a =~= b);
            }
        }
        m
    }
}

/// From `threshold` shares that begin with ids of shares of one split, and of which at one
/// place exactly one has a byte other than that share, the seed that was split is not
/// recovered, whatever stands in the other places.
pub proof fn law_one_wrong_byte_spoils_the_seed(
    threshold: u8,
    seed: Seq<u8>,
    split: Seq<ShareBytes>,
    picked: Seq<ShareBytes>,
    k: int,
    m: int,
)
    requires
        is_split(split, threshold, seed),
        picked.len() >= threshold,
        0 <= k < threshold,
        0 <= m,
        forall|i: int| 0 <= i < threshold ==> (#[trigger] picked[i]).bytes@.len() > 0,
        lacks_byte_of(split, picked[k].bytes@, m),
        forall|i: int|
            0 <= i < threshold && i != k ==> has_byte_of(
                split,
                (#[trigger] picked[i]).bytes@,
                m,
            ),
    ensures
        readable(share_contents(picked).take(threshold as int)),
        recovered_seed(threshold, share_contents(picked)) != Ok::<_, SecretSharingError>(seed),
{
    let p = choose|p: Seq<Seq<u8>>| #[trigger]
        shares_seed(p, threshold, seed) && forall|i: int|
            0 <= i < split.len() ==> is_share_of(p, (#[trigger] split[i]).id, split[i].bytes@);
    let taken = share_contents(picked).take(threshold as int);
    assert forall|i: int| 0 <= i < threshold implies (#[trigger] taken[i]).len() > 0
        && taken[i][0] != 0 && (i != k ==> agrees_at(p, taken[i], m)) by {
        assert(taken[i] == picked[i].bytes@);
        if i != k {
            let j = choose|j: int|
                0 <= j < split.len() && (#[trigger] split[j]).id == taken[i][0] && byte_at(
                    split[j].bytes@,
                    m,
                ) == byte_at(taken[i], m);
            assert(has_byte_of(split, picked[i].bytes@, m));
            assert(is_share_of(p, split[j].id, split[j].bytes@));
        } else {
            let j = choose|j: int|
                0 <= j < split.len() && (#[trigger] split[j]).id == taken[i][0] && byte_at(
                    split[j].bytes@,
                    m,
                ) != byte_at(taken[i], m);
            assert(is_share_of(p, split[j].id, split[j].bytes@));
        }
    }
    assert(!agrees_at(p, taken[k], m)) by {
        let j = choose|j: int|
            0 <= j < split.len() && (#[trigger] split[j]).id == taken[k][0] && byte_at(
                split[j].bytes@,
                m,
            ) != byte_at(taken[k], m);
        assert(is_share_of(p, split[j].id, split[j].bytes@));
    }
    assert(off_in_one(p, taken, k, m));
    assert(spoiled_by_one(p, threshold, base64_text(seed)));
    assert(recovered_text(threshold, taken) != Some(base64_text(seed)));
}

/// From `threshold` shares, of which all but one come from one split of a seed, and the one
/// left begins with the id of a share of that split but differs from it, the seed is not
/// recovered, wherever the one stands.
pub proof fn law_one_foreign_share_spoils_the_seed(
    threshold: u8,
    seed: Seq<u8>,
    split: Seq<ShareBytes>,
    picked: Seq<ShareBytes>,
    k: int,
)
    requires
        is_split(split, threshold, seed),
        picked.len() >= threshold,
        0 <= k < threshold,
        forall|i: int|
            0 <= i < threshold && i != k ==> is_one_of(#[trigger] picked[i], split),
        picked[k].bytes@.len() > 0,
        exists|j: int|
            0 <= j < split.len() && (#[trigger] split[j]).id == picked[k].bytes@[0]
                && split[j].bytes@ != picked[k].bytes@,
    ensures
        readable(share_contents(picked).take(threshold as int)),
        recovered_seed(threshold, share_contents(picked)) != Ok::<_, SecretSharingError>(seed),
{
    let p = choose|p: Seq<Seq<u8>>| #[trigger]
        shares_seed(p, threshold, seed) && forall|i: int|
            0 <= i < split.len() ==> is_share_of(p, (#[trigger] split[i]).id, split[i].bytes@);
    let other = picked[k].bytes@;
    let own = choose|j: int|
        0 <= j < split.len() && (#[trigger] split[j]).id == other[0] && split[j].bytes@ != other;
    let m = lemma_differ_at(split[own].bytes@, other);
    assert(lacks_byte_of(split, other, m));
    assert forall|i: int| 0 <= i < threshold && i != k implies (
    #[trigger] picked[i]).bytes@.len() > 0 && has_byte_of(split, picked[i].bytes@, m) by {
        assert(is_one_of(picked[i], split));
        let j = choose|j: int|
            0 <= j < split.len() && (#[trigger] split[j]).id == picked[i].id && split[j].bytes@
                == picked[i].bytes@;
        assert(is_share_of(p, split[j].id, split[j].bytes@));
    }
    law_one_wrong_byte_spoils_the_seed(threshold, seed, split, picked, k, m);
}

/// Shares of two splits do not mix. Of `threshold` shares the one at `k` is of a second
/// split, and the others are of a first.
///
/// If the one differs from the first split's share of its id, the first seed is not
/// recovered. If moreover at some place `m` exactly one of the shares, at `c`, has a byte
/// other than the second split's share of its id, the second seed is not recovered either.
/// Without such a place the polynomials decide, which are drawn at random.
pub proof fn law_mixed_shares_recover_neither_seed(
    threshold: u8,
    seed: Seq<u8>,
    split: Seq<ShareBytes>,
    other_seed: Seq<u8>,
    other_split: Seq<ShareBytes>,
    picked: Seq<ShareBytes>,
    k: int,
    c: int,
    m: int,
)
    requires
        is_split(split, threshold, seed),
        is_split(other_split, threshold, other_seed),
        picked.len() >= threshold,
        0 <= k < threshold,
        forall|i: int|
            0 <= i < threshold && i != k ==> is_one_of(#[trigger] picked[i], split),
        is_one_of(picked[k], other_split),
        exists|j: int|
            0 <= j < split.len() && (#[trigger] split[j]).id == picked[k].id && split[j].bytes@
                != picked[k].bytes@,
    ensures
        readable(share_contents(picked).take(threshold as int)),
        recovered_seed(threshold, share_contents(picked)) != Ok::<_, SecretSharingError>(seed),
        0 <= c < threshold && 0 <= m && lacks_byte_of(other_split, picked[c].bytes@, m) && (
        forall|i: int|
            0 <= i < threshold && i != c ==> has_byte_of(
                other_split,
                (#[trigger] picked[i]).bytes@,
                m,
            )) ==> recovered_seed(threshold, share_contents(picked)) != Ok::<
            _,
            SecretSharingError,
        >(other_seed),
{
    let p = choose|p: Seq<Seq<u8>>| #[trigger]
        shares_seed(p, threshold, seed) && forall|i: int|
            0 <= i < split.len() ==> is_share_of(p, (#[trigger] split[i]).id, split[i].bytes@);
    let q = choose|q: Seq<Seq<u8>>| #[trigger]
        shares_seed(q, threshold, other_seed) && forall|i: int|
            0 <= i < other_split.len() ==> is_share_of(
                q,
                (#[trigger] other_split[i]).id,
                other_split[i].bytes@,
            );
    let at = choose|at: int|
        0 <= at < other_split.len() && (#[trigger] other_split[at]).id == picked[k].id
            && other_split[at].bytes@ == picked[k].bytes@;
    assert(is_share_of(q, other_split[at].id, other_split[at].bytes@));
    law_one_foreign_share_spoils_the_seed(threshold, seed, split, picked, k);
    if 0 <= c < threshold && 0 <= m && lacks_byte_of(other_split, picked[c].bytes@, m) && (
    forall|i: int|
        0 <= i < threshold && i != c ==> has_byte_of(
            other_split,
            (#[trigger] picked[i]).bytes@,
            m,
        )) {
        assert forall|i: int| 0 <= i < threshold implies (
        #[trigger] picked[i]).bytes@.len() > 0 by {
            if i != k {
                assert(is_one_of(picked[i], split));
                let j = choose|j: int|
                    0 <= j < split.len() && (#[trigger] split[j]).id == picked[i].id
                        && split[j].bytes@ == picked[i].bytes@;
                assert(is_share_of(p, split[j].id, split[j].bytes@));
            }
        }
        law_one_wrong_byte_spoils_the_seed(threshold, other_seed, other_split, picked, c, m);
    }
}

/// Fewer shares than the threshold recover nothing.
pub proof fn law_too_few_shares_recover_nothing(threshold: u8, shares: Seq<ShareBytes>)
    requires
        shares.len() < threshold,
    ensures
        recovered_seed(threshold, share_contents(shares)) == Err::<Seq<u8>, _>(
            SecretSharingError::RecoverFailed,
        ),
{
}

/// A seed is split exactly if the threshold is not 0 and no more shares are needed than are
/// made. The threshold is looked at first.
pub proof fn law_splits_need_enough_shares(threshold: u8, share_count: u8)
    ensures
        split_error(threshold, share_count) is None <==> 0 < threshold <= share_count,
        threshold == 0 ==> split_error(threshold, share_count) == Some(
            SecretSharingError::InvalidThreshold,
        ),
        share_count < threshold ==> split_error(threshold, share_count) == Some(
            SecretSharingError::InvalidShareCount,
        ),
{
}

/// What recovery comes to: the bytes of the first `threshold` shares, and nothing else, are
/// interpolated, and what that gives is decoded. Without a threshold, with too few shares, with
/// no text and with a text that stands for nothing it fails, each in its way.
pub proof fn law_recovery_decodes_what_interpolation_gives(
    threshold: u8,
    shares: Seq<ShareBytes>,
    res: Result<Vec<u8>, SecretSharingError>,
)
    requires
        seed_view(res) == recovered_seed(threshold, share_contents(shares)),
    ensures
        threshold == 0 ==> res is Err && res->Err_0 == SecretSharingError::InvalidThreshold,
        shares.len() < threshold ==> res is Err && res->Err_0 == SecretSharingError::RecoverFailed,
        0 < threshold <= shares.len() ==> {
            let text = recovered_text(
                threshold,
                Seq::new(threshold as nat, |i: int| shares[i].bytes@),
            );
            &&& text is None ==> res is Err && res->Err_0 == SecretSharingError::RecoverFailed
            &&& text is Some && base64_bytes(text->0) is None ==> res is Err && res->Err_0
                == SecretSharingError::DecodeFailed
            &&& text is Some && base64_bytes(text->0) is Some ==> res is Ok && res->Ok_0@
                == base64_bytes(text->0)->0
        },
{
    if 0 < threshold <= shares.len() {
        assert(share_contents(shares).take(threshold as int) =~= Seq::new(
            threshold as nat,
            |i: int| shares[i].bytes@,
        ));
    }
}

} // verus!
