//! The parts of a RISC-V proving system that decide what is proved: the machine and its runs, the
//! constraints of one row with their tables and columns, the gathering of what a run leaves behind,
//! and the proofs of programs as words and files.
use vstd::prelude::*;

pub mod bits;
pub mod circuit;
pub mod cli;
pub mod field;
pub mod layout;
pub mod prime;
pub mod proofs;
pub mod riscv_cycles;
pub mod simulator;
pub mod tables;
pub mod text;
pub mod trace;

verus! {

} // verus!
