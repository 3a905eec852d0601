//! A verified Goldilocks-field FRI library: field arithmetic, the Poseidon
//! permutation, Merkle commitments, a Fiat-Shamir transcript and the FRI
//! prover and verifier.
pub mod field;
pub mod poseidon;
pub mod merkle;
pub mod transcript;
pub mod fri;
pub mod prover;
pub mod fri_verifier;
pub mod fri_complete;
pub mod ntt;
pub mod ntt_dft;

pub use fri::{
    Digest, FriConfig, FriConfigError, FriLayerOpening, FriProof, FriProver, FriQuery,
    FriVerifier,
};
pub use poseidon::PoseidonParams;
