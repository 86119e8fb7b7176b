//! Running a program without proving anything, and looking at its result.
use crate::simulator::abstractions::{DelegationCSRProcessor, QuasiWordSource};
use crate::simulator::config::MachineConfig;
use crate::simulator::isa::CycleFault;
use crate::simulator::memory::VectorMemoryImplWithRom;
use crate::simulator::run;
use crate::simulator::state;
use crate::simulator::state::{RiscV32StateForUnrolledProver, World};
use crate::text;
use crate::text::append_decimal;
use crate::trace::execution;
use crate::trace::execution::{load_program, ENTRY_POINT, RAM_SIZE};
use vstd::prelude::*;
use vstd::string::*;

verus! {

/// How many cycles are run when the caller does not say.
pub const DEFAULT_CYCLES: usize = 32_000_000;

/// The number of cycles to run.
pub open spec fn cycles_or_default(cycles: Option<usize>) -> usize {
    match cycles {
        Some(n) => n,
        None => DEFAULT_CYCLES,
    }
}

/// What a program that was only run leaves behind.
pub struct RunOutcome {
    pub registers: [u32; 32],
    pub reached_end: bool,
}

/// The world that a program is run in: no memory is read-only, and the oracle gives the input.
pub open spec fn start_of_run<P>(
    program: Seq<u32>,
    num_words: nat,
    input: Option<Vec<u32>>,
    processor: P,
) -> World<Seq<u32>, P> {
    execution::start_of(
        program,
        num_words,
        0,
        match input {
            Some(words) => words@,
            None => Seq::<u32>::empty(),
        },
        processor,
    )
}

/// Runs a program from its start. In case of a fault the number of completed cycles comes with it.
pub fn run_binary<C: MachineConfig, CSR: DelegationCSRProcessor>(
    binary: &[u32],
    ram_size: usize,
    cycles: Option<usize>,
    input_data: Option<Vec<u32>>,
    csr_processor: &mut CSR,
) -> (r: Result<RunOutcome, (usize, CycleFault)>)
    requires
        ram_size % 4 == 0,
        ram_size <= RAM_SIZE,
        binary@.len() <= ram_size / 4,
    ensures
        ({
            let n = cycles_or_default(cycles) as nat;
            let start = start_of_run(
                binary@,
                (ram_size / 4) as nat,
                input_data,
                old(csr_processor).model(),
            );
            match run::run::<C, VectorMemoryImplWithRom, QuasiWordSource, CSR>(start, n) {
                Ok(done) => {
                    &&& r is Ok
                    &&& r->Ok_0.registers@ == done.world.cpu.regs
                    &&& r->Ok_0.reached_end == done.finished
                    &&& final(csr_processor).model() == done.world.processor
                },
                Err(fault) => {
                    &&& r is Err
                    &&& r->Err_0.1 == fault
                    &&& r->Err_0.0 < n
                    &&& run::run::<C, VectorMemoryImplWithRom, QuasiWordSource, CSR>(
                        start,
                        r->Err_0.0 as nat,
                    ) is Ok
                    &&& run::run::<C, VectorMemoryImplWithRom, QuasiWordSource, CSR>(
                        start,
                        (r->Err_0.0 + 1) as nat,
                    ) is Err
                },
            }
        }),
{
    let num_cycles: usize = match cycles {
        Some(n) => n,
        None => DEFAULT_CYCLES,
    };
    let ghost start = start_of_run(
        binary@,
        (ram_size / 4) as nat,
        input_data,
        csr_processor.model(),
    );
    let words: Vec<u32> = match input_data {
        Some(words) => words,
        None => Vec::new(),
    };
    let mut oracle = QuasiWordSource::new(words);
    let mut memory = load_program(ram_size, 0, binary);
    let mut tracer = ();
    let mut state = RiscV32StateForUnrolledProver::<C>::initial(ENTRY_POINT);
    proof {
        let world = state::world_of::<C, VectorMemoryImplWithRom, QuasiWordSource, CSR>(
            state,
            memory,
            oracle,
            *csr_processor,
        );
        assert(world.words =~= start.words);
        assert(world.writable =~= start.writable);
        assert(world == start);
    }
    match state.try_run_cycles(
        &mut memory,
        &mut tracer,
        &mut oracle,
        csr_processor,
        num_cycles,
    ) {
        Ok(reached_end) => Ok(
            RunOutcome { registers: state.observable.registers, reached_end },
        ),
        Err(fault) => Err(fault),
    }
}

/// The registers from `from` on and before `to`, in decimal, with a comma and a space between them.
pub open spec fn listed(registers: Seq<u32>, from: int, to: int) -> Seq<char>
    decreases to - from,
{
    if to <= from {
        seq![]
    } else if to == from + 1 {
        text::decimal(registers[from] as nat)
    } else {
        listed(registers, from, to - 1) + seq![',', ' '] + text::decimal(registers[to - 1] as nat)
    }
}

/// The result of a program as text: registers 10 to 25.
pub fn result_text(registers: &[u32; 32]) -> (r: String)
    ensures
        r@ == listed(registers@, 10, 26),
{
    let mut s = String::new();
    append_decimal(&mut s, registers[10] as u64);
    assert(s@ =~= listed(registers@, 10, 11));
    let mut i: usize = 11;
    while i < 26
        invariant
            11 <= i <= 26,
            s@ == listed(registers@, 10, i as int),
        decreases 26 - i,
    {
        let ghost before = s@;
        s.push(',');
        s.push(' ');
        append_decimal(&mut s, registers[i] as u64);
        assert(s@ =~= before + seq![',', ' '] + text::decimal(registers@[i as int] as nat));
        i = i + 1;
    }
    s
}

/// A place where the result of a program is not the expected one.
#[derive(Clone, Copy, Debug, PartialEq, Eq)]
pub struct Difference {
    pub place: usize,
    pub register: u32,
    pub expected: u32,
}

/// The expected value at a place; what is not given is zero.
pub open spec fn expected_at(expected: Seq<u32>, place: int) -> u32 {
    if place < expected.len() {
        expected[place]
    } else {
        0
    }
}

/// Compares registers 10 to 17 with the expected results, which may be fewer, and gives the first
/// difference.
pub fn compare_results(registers: &[u32; 32], expected_results: &[u32]) -> (r: Option<Difference>)
    ensures
        match r {
            None => forall|i: int|
                0 <= i < 8 ==> #[trigger] registers@[10 + i] == expected_at(expected_results@, i),
            Some(d) => {
                &&& d.place < 8
                &&& d.register == registers@[10 + d.place]
                &&& d.expected == expected_at(expected_results@, d.place as int)
                &&& d.register != d.expected
                &&& forall|i: int|
                    0 <= i < d.place ==> #[trigger] registers@[10 + i] == expected_at(
                        expected_results@,
                        i,
                    )
            },
        },
{
    let mut i: usize = 0;
    while i < 8
        invariant
            i <= 8,
            forall|j: int|
                0 <= j < i ==> #[trigger] registers@[10 + j] == expected_at(expected_results@, j),
        decreases 8 - i,
    {
        let expected: u32 = if i < expected_results.len() {
            expected_results[i]
        } else {
            0
        };
        let register: u32 = registers[10 + i];
        if register != expected {
            return Some(Difference { place: i, register, expected });
        }
        i = i + 1;
    }
    None
}

/// A program starts at address zero with all registers zero, in a memory that holds its words from
/// address zero on and zeros behind them, all of which may be written, with an oracle that gives the
/// words of its input and nothing else.
pub proof fn law_start_of_run<P>(
    program: Seq<u32>,
    num_words: nat,
    input: Option<Vec<u32>>,
    processor: P,
    address: u64,
    register: int,
)
    requires
        program.len() <= num_words,
        0 <= register < 32,
    ensures
        ({
            let world = start_of_run(program, num_words, input, processor);
            &&& world.cpu.pc == 0
            &&& world.cpu.regs.len() == 32
            &&& world.cpu.regs[register] == 0
            &&& world.words.contains_key(address) <==> address % 4 == 0 && address < 4 * num_words
            &&& address % 4 == 0 && address < 4 * program.len() ==> world.words[address]
                == program[address as int / 4]
            &&& address % 4 == 0 && 4 * program.len() <= address < 4 * num_words
                ==> world.words[address] == 0
            &&& address % 4 == 0 ==> world.writable.contains(address)
            &&& input matches Some(words) ==> world.oracle == words@
            &&& input is None ==> world.oracle.len() == 0
            &&& world.processor == processor
        }),
{
}

/// A run has the number of cycles that is asked for, and 32 million if none is.
pub proof fn law_number_of_cycles(n: usize)
    ensures
        cycles_or_default(Some(n)) == n,
        cycles_or_default(None) == 32_000_000,
{
}

/// The registers as text: one register is its decimal, and neighbouring ranges are joined by a comma
/// and a space.
pub proof fn law_listed_registers(registers: Seq<u32>, from: int, middle: int, to: int)
    requires
        from < middle < to,
    ensures
        listed(registers, from, from + 1) == text::decimal(registers[from] as nat),
        listed(registers, from, to) == listed(registers, from, middle) + seq![',', ' '] + listed(
            registers,
            middle,
            to,
        ),
    decreases to - middle,
{
    let comma = seq![',', ' '];
    if to == middle + 1 {
        assert(listed(registers, middle, to) == text::decimal(registers[middle] as nat));
    } else {
        law_listed_registers(registers, from, middle, to - 1);
        let last = text::decimal(registers[to - 1] as nat);
        let (a, b) = (listed(registers, from, middle), listed(registers, middle, to - 1));
        assert(a + comma + b + comma + last =~= a + comma + (b + comma + last));
    }
}

/// Results that are expected and not given are zero.
pub proof fn law_expected_results(expected: Seq<u32>, place: int)
    requires
        0 <= place,
    ensures
        place < expected.len() ==> expected_at(expected, place) == expected[place],
        place >= expected.len() ==> expected_at(expected, place) == 0,
{
}

} // verus!
