//! Payment proofs for Monero outputs: a proof that a transaction output pays a
//! given address, the per-output secrets it is checked with, and a block-chunked
//! base58 codec for its text form.
pub mod base58;
pub mod crypto;
pub mod out_proof;
pub mod shared_key_derivations;

pub use out_proof::OutProof;
