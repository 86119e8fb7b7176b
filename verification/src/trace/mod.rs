//! Running a program in chunks, and what is gathered from the run.
pub mod chunks;
pub mod execution;
pub mod records;
pub mod logs;
pub mod split;
pub mod transcript;
pub mod commitment;
