//! Proving core of a PLONK-style polynomial IOP: an arithmetic circuit with
//! copy constraints, the witness engine that fills its cells, the encoding
//! of a circuit and its witness as polynomials over the scalar field of
//! BLS12-381, and the identities that certify a witness.

pub mod circuit;
pub mod error;
pub mod field;
pub mod polynomial;
pub mod prover;
pub mod setup;
pub mod soundness;
pub mod types;
pub mod verification;
pub mod wiring;
pub mod witness;

pub use circuit::{Circuit, CircuitBuilder};
pub use prover::Prover;
pub use setup::setup;
pub use types::{Proof, PublicParameters};
pub use verification::Verifier;
