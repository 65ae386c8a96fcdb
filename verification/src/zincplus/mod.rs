//! Memory-consistency proofs by a constraint system.
//!
//! A trace is proved consistent through a table that holds it twice, in
//! execution order and sorted by address and time, together with a switching
//! network that takes one to the other.

pub mod benes;
pub mod error;
pub mod expr;
pub mod layout;
pub mod limbs;
pub mod prover;
pub mod trace;
pub mod types;
pub mod uair;
pub mod unique;
pub mod witness;

pub use self::error::ZincMemoryError;
pub use self::prover::{
    prove_memory_consistency, verify_memory_consistency, ProofSystem, ZincMemoryProof,
};
pub use self::uair::MemoryConsistencyUair;
