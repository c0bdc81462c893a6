//! Cold-boot protection for secret payloads.
//!
//! A payload is sealed by encrypting it under a fresh random key and then
//! re-encrypting that key under further fresh random keys, link by link; only
//! the last key of the chain is protected by a key derived, slowly and with a
//! random salt, from an externally supplied secret. A memory image taken
//! later shows nothing but ciphertexts and a salt, and every intermediate key
//! is overwritten as soon as the next link exists. Recovery walks the chain
//! in reverse from the derived key down to the payload, and any block that
//! fails authentication aborts the walk.

use vstd::prelude::*;

mod chain;
mod codec;
mod erase;
mod primitives;

pub use chain::hide_data;
pub use chain::recover;
pub use chain::EncryptedBlock;
pub use chain::HiddenData;
pub use chain::chain_encodes;
pub use chain::chain_encodes_with;
pub use chain::lemma_round_trip;
pub use codec::encode;
pub use codec::decode;
pub use codec::wf_layout;
pub use codec::chain_bytes;
pub use codec::block_bytes;
pub use codec::blocks_bytes;
pub use codec::u64_bytes;
pub use codec::u64_of;
pub use erase::wipe;
pub use primitives::derive_key;
pub use primitives::aead_ct_of;
pub use primitives::derived_key_of;
pub use primitives::lemma_derivation_deterministic;

verus! {

/// Length in bytes of the random salt stored alongside a chain.
pub const SALT_SIZE: usize = 32;

/// Length in bytes of a symmetric key (AES-256).
pub const KEY_SIZE: usize = 32;

/// Length in bytes of the random nonce drawn for every block.
pub const NONCE_SIZE: usize = 32;

/// Length in bytes of the authentication tag kept at the end of a ciphertext.
pub const TAG_SIZE: usize = 16;

/// Iteration count of the slow key derivation.
pub const PBKDF_ITERS: usize = 10000;

/// Every failure the library reports. Random-source, derivation and
/// encryption failures are fatal primitive failures; an authentication
/// failure is the expected outcome of recovering with a wrong secret or from
/// a corrupted chain, and is never conflated with success.
#[derive(Clone, Copy, Debug, PartialEq, Eq, Structural)]
pub enum Error {
    /// The secure random source failed to produce bytes.
    RandomSource,
    /// The key-derivation primitive failed.
    Derivation,
    /// The encryption primitive failed.
    Encryption,
    /// A block failed authentication: wrong secret, or a tampered chain.
    Authentication,
    /// A run of bytes is not the serialized form of any chain.
    Malformed,
}

/// Every byte of the sequence is zero: the state an erased buffer is left in.
pub open spec fn all_zero(s: Seq<u8>) -> bool {
    forall|i: int| 0 <= i < s.len() ==> s[i] == 0u8
}

} // verus!
