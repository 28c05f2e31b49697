//! Verified building blocks of a quarantined TreeKEM group.

pub mod algebra;
pub mod bytes;
pub mod codec;
pub mod commit;
pub mod commit_builder;
pub mod crypto;
pub mod ddh_upke;
pub mod error;
pub mod ghost_sharing;
pub mod ghosts;
pub mod hash;
pub mod keypair;
pub mod leaf;
pub mod proposal;
pub mod quarantine_messages;
pub mod ristretto;
pub mod rng;
pub mod secret_sharing;
pub mod tree_kem_private;
pub mod upke;
pub mod welcome;
