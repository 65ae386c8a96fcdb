//! What the operations of the library promise, in terms of what goes into them
//! and what comes out.
//!
//! Each law takes the results of calls and says how they relate to the inputs,
//! or to the results of other calls, for all inputs.

pub mod backends;
pub mod merkle;
pub mod network;
pub mod proofs;
pub mod records;
pub mod system;
pub mod texts;
pub mod witness;
