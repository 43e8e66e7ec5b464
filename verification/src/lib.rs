//! A folding-based low-degree proximity test (FRI) over a 64-bit prime field.
//!
//! The prover commits to successive foldings of an evaluation vector and the
//! verifier replays the transcript and checks per-position consistency of the
//! folded layers against the commitments and the final remainder polynomial.

pub mod field;
pub mod hashing;
pub mod merkle;
pub mod options;
pub mod coin;
pub mod fold;
pub mod fri_proof;
pub mod prover;
pub mod fri_verifier;
pub mod pedersen;
