//! Proofs of programs: what they consist of, how they are flattened into words, and the names of
//! the files that hold them.
pub mod circuit_proof;
pub mod program;
pub mod files;
