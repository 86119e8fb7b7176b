//! Where the columns of a trace lie.
pub mod setup_tree;
pub mod witness_tree;
