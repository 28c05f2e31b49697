//! Keys, and the cryptographic operations that a group leaves to its user.

use crate::bytes::copy_bytes;
use vstd::prelude::*;

verus! {

/// A public key of the key encapsulation mechanism.
#[derive(Debug, PartialEq, Eq)]
pub struct HpkePublicKey {
    pub bytes: Vec<u8>,
}

/// A secret key of the key encapsulation mechanism.
#[derive(Debug, PartialEq, Eq)]
pub struct HpkeSecretKey {
    pub bytes: Vec<u8>,
}

impl View for HpkePublicKey {
    type V = Seq<u8>;

    open spec fn view(&self) -> Seq<u8> {
        self.bytes@
    }
}

impl View for HpkeSecretKey {
    type V = Seq<u8>;

    open spec fn view(&self) -> Seq<u8> {
        self.bytes@
    }
}

impl Clone for HpkePublicKey {
    fn clone(&self) -> (res: Self)
        ensures
            res@ == self@,
    {
        HpkePublicKey { bytes: copy_bytes(self.bytes.as_slice()) }
    }
}

impl Clone for HpkeSecretKey {
    fn clone(&self) -> (res: Self)
        ensures
            res@ == self@,
    {
        HpkeSecretKey { bytes: copy_bytes(self.bytes.as_slice()) }
    }
}

/// A cryptographic operation failed. The code is the provider's own, and says why.
#[derive(Clone, Copy, Debug, PartialEq, Eq, Structural)]
pub struct CryptoError {
    pub code: u32,
}

/// The cryptographic operations of one cipher suite.
pub trait CipherSuiteProvider {
    /// The size in bytes of what the key derivation function extracts.
    fn kdf_extract_size(&self) -> usize;

    /// `count` random bytes.
    fn random_bytes_vec(&self, count: usize) -> Result<Vec<u8>, CryptoError>;

    /// The key pair that belongs to the given key material.
    fn kem_derive(&self, ikm: &[u8]) -> Result<(HpkeSecretKey, HpkePublicKey), CryptoError>;

    /// A fresh key pair.
    fn kem_generate(&self) -> Result<(HpkeSecretKey, HpkePublicKey), CryptoError>;
}

/// Keys that are seen the same have the same bytes.
pub proof fn law_keys_are_seen_whole(
    a: HpkePublicKey,
    b: HpkePublicKey,
    x: HpkeSecretKey,
    y: HpkeSecretKey,
)
    ensures
        a@ == b@ <==> a.bytes@ == b.bytes@,
        x@ == y@ <==> x.bytes@ == y.bytes@,
        a@ == a.bytes@,
        x@ == x.bytes@,
{
}

} // verus!
