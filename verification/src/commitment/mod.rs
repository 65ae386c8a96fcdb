//! Commitment to the leaves of Merkle trees.

pub mod field;
pub mod merkle_tree;
pub mod modulus;
pub mod prime;
