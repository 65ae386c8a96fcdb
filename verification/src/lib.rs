//! Memory consistency of execution traces, and commitment to Merkle trees.
//!
//! An execution trace lists reads and writes in the order in which they
//! happened. It accesses memory consistently when every read returns the last
//! value written to its address. [`backend`] offers two ways to show this of a
//! trace; [`zincplus`] holds the constraint system and the witness behind the
//! second. [`commitment`] shows that a path leads from a leaf to a root.

pub mod backend;
pub mod base;
pub mod commitment;
pub mod consistency;
pub mod digits;
pub mod laws;
pub mod machine;
pub mod order;
pub mod perm;
pub mod zincplus;
