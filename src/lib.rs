//! A lattice-style commitment and folding argument over the BN254 scalar field:
//! gadget decomposition, a Kronecker-structured commitment, and the
//! prover/verifier round state machine.
pub mod field;
pub mod linalg;
pub mod dense;
pub mod error;
pub mod gadget;
pub mod commitment;
pub mod protocol;
