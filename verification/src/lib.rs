//! A verified Merkle tree: a binary hash tree over an ordered sequence of
//! byte-string elements, with a root commitment, compact membership proofs,
//! proof verification, and incremental extension.

pub mod hashing;
pub mod merkle;
