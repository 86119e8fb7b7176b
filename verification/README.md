# airbender

The parts of a RISC-V proving system that decide what is proved, written in Verus: what each
function does is stated in its contract and proved.

- `src/simulator`: the machine. One cycle, runs of many cycles, memory, the oracle, delegations, and
  what holds of every run.
- `src/circuit`: the constraints of one row. Decoding, operands, addition and subtraction, the next
  program counter, the registers that the row accesses, and the machine that is compiled from them.
  Where a row adds or subtracts, a satisfying witness does what the machine does, and what the
  machine does has one.
- `src/tables`: the lookup tables of a machine and of its program.
- `src/layout`: the columns of the traces.
- `src/riscv_cycles.rs`: the sizes of the main circuit, and what it is compiled and set up from.
- `src/trace`: running a program in chunks, what is gathered from the run, and the words that the
  challenges are drawn from.
- `src/proofs`: proofs of programs as words and as files.
- `src/cli`, `src/text.rs`: what the command line tool computes.
- `src/field.rs`, `src/prime.rs`, `src/bits.rs`: the field of order `2^31 - 1`, and bits.

`app` is the command line tool around the library: arguments, files and services. `tests` runs the
library on concrete values.
