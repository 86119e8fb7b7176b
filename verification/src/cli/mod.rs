//! What the command line tool decides and computes.
pub mod input;
pub mod verification;
pub mod run;
pub mod setup;
