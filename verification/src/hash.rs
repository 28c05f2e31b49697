//! Hashing and constant-time comparison of byte strings.

use sha2::{Digest, Sha512};
use subtle::ConstantTimeEq;
use vstd::prelude::*;

verus! {

/// The SHA-512 digest of `data`.
pub uninterp spec fn sha512_digest(data: Seq<u8>) -> Seq<u8>;

/// `Sha512::update` and `Sha512::finalize`: the digest of the three parts fed one
/// after the other, which is the digest of their concatenation.
#[verifier::external_body]
pub(crate) fn sha512(a: &[u8], b: &[u8], c: &[u8]) -> (res: [u8; 64])
    ensures
        res@ == sha512_digest(a@ + b@ + c@),
{
    let mut hasher = Sha512::new();
    hasher.update(a);
    hasher.update(b);
    hasher.update(c);
    hasher.finalize().into()
}

/// `ConstantTimeEq::ct_eq` on byte slices, read by `Choice::unwrap_u8`: 1 if the
/// slices hold the same bytes and 0 if they do not.
#[verifier::external_body]
pub(crate) fn ct_eq(a: &[u8], b: &[u8]) -> (res: u8)
    ensures
        res == (if a@ == b@ { 1u8 } else { 0u8 }),
{
    a.ct_eq(b).unwrap_u8()
}

} // verus!
