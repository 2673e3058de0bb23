//! Core arithmetic for a STIR-style low-degree test: a coefficient-form
//! polynomial engine over a small prime field, together with the proof
//! object that a prover hands to a verifier.

pub mod field;
pub mod laws;
pub mod polynomial;
pub mod proof_object;

pub use polynomial::Polynomial;
pub use proof_object::StirProof;
