//! The instruction-set simulator that unrolls a program into cycles.
pub mod abstractions;
pub mod config;
pub mod delegations;
pub mod instruction;
pub mod isa;
pub mod instruction_laws;
pub mod laws;
pub mod machine;
pub mod memory;
pub mod run;
pub mod state;
