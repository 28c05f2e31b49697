//! Errors of group operations.

use crate::codec::CodecError;
use crate::crypto::CryptoError;
use crate::secret_sharing::SecretSharingError;
use vstd::prelude::*;

verus! {

/// What a serialization error came from.
#[derive(Clone, Copy, Debug, PartialEq, Eq, Structural)]
pub enum SerializationCause {
    Codec(CodecError),
    SecretSharing(SecretSharingError),
}

/// The rules that the application sets refused a commit. The code is the application's own.
#[derive(Clone, Copy, Debug, PartialEq, Eq, Structural)]
pub struct RulesError {
    pub code: u32,
}

/// Errors of group operations.
#[derive(Clone, Copy, Debug, PartialEq, Eq, Structural)]
pub enum MlsError {
    SerializationError(SerializationCause),
    CryptoProviderError(CryptoError),
    MlsRulesError(RulesError),
    PubKeyMismatch,
    InvalidNodeIndex,
    ExistingPendingCommit,
    GroupUsedAfterReInit,
    ExternalCommitMissingExternalInit,
    ExpectedNode,
    InvalidProposal,
}

} // verus!
