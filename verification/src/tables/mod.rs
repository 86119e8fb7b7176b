//! Lookup tables: their rows, and the set of tables of a machine.
pub mod csr;
pub mod driver;
pub mod lookup;
pub mod rom;
