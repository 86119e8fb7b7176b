//! Running a program from its entry point to its end.
use crate::riscv_cycles;
use crate::riscv_cycles::{MAX_ROM_SIZE, ROM_ADDRESS_SPACE_SECOND_WORD_BITS};
use crate::simulator::abstractions::{
    Cpu, DelegationCSRProcessor, MemorySource, NonDeterminismCSRSource,
};
use crate::simulator::config::MachineConfig;
use crate::simulator::memory;
use crate::simulator::memory::VectorMemoryImplWithRom;
use crate::simulator::run;
use crate::simulator::state;
use crate::simulator::state::{RiscV32StateForUnrolledProver, World};
use crate::tables::lookup;
use crate::tables::rom;
use crate::tables::rom::rom_bound;
use crate::trace::chunks;
use crate::trace::chunks::{num_chunks_for, try_run_chunks, ChunkTracer, ExecutionFault};
use crate::trace::split;
use crate::trace::split::{split_execution, SplitExecution, TracerRecords};
use vstd::prelude::*;

verus! {

/// Where every program starts.
pub const ENTRY_POINT: u32 = 0;

/// The size of the memory of a program, in bytes: 1 GB.
pub const RAM_SIZE: usize = 0x4000_0000;

/// The memory of `num_words` words that holds a program from its first word on.
pub open spec fn image(program: Seq<u32>, num_words: nat) -> Seq<u32> {
    Seq::new(
        num_words,
        |i: int|
            if i < program.len() {
                program[i]
            } else {
                0u32
            },
    )
}

/// The world at the start of a program.
pub open spec fn start_of<N, P>(
    program: Seq<u32>,
    num_words: nat,
    rom_words: int,
    oracle: N,
    processor: P,
) -> World<N, P> {
    World {
        cpu: Cpu { regs: Seq::new(32, |i: int| 0u32), pc: ENTRY_POINT },
        words: memory::words_by_address(image(program, num_words)),
        writable: Set::new(|a: u64| a / 4 >= rom_words),
        oracle,
        processor,
    }
}

/// A memory with a program in it.
pub fn load_program(ram_size: usize, rom_bound: usize, binary: &[u32]) -> (r:
    VectorMemoryImplWithRom)
    requires
        ram_size % 4 == 0,
        rom_bound % 4 == 0,
        rom_bound <= ram_size <= RAM_SIZE,
        binary@.len() <= ram_size / 4,
    ensures
        r.contents() == image(binary@, (ram_size / 4) as nat),
        r.rom_size() == rom_bound / 4,
{
    let mut memory = VectorMemoryImplWithRom::new_for_byte_size(ram_size, rom_bound);
    let mut idx: usize = 0;
    while idx < binary.len()
        invariant
            idx <= binary@.len() <= ram_size / 4,
            ram_size <= RAM_SIZE,
            memory.rom_size() == rom_bound / 4,
            memory.contents().len() == ram_size / 4,
            forall|i: int|
                0 <= i < memory.contents().len() ==> #[trigger] memory.contents()[i] == if i < idx {
                    binary@[i]
                } else {
                    0u32
                },
        decreases binary@.len() - idx,
    {
        memory.populate(ENTRY_POINT + idx as u32 * 4, binary[idx]);
        idx = idx + 1;
    }
    assert(memory.contents() =~= image(binary@, (ram_size / 4) as nat));
    memory
}

/// What a program leaves behind.
pub struct Execution {
    pub final_pc: u32,
    pub circuits_needed: usize,
    pub registers: [u32; 32],
    /// The words of the memory, with the program blanked out.
    pub ram: Vec<u32>,
}

/// The words of the memory of a world beyond the program.
pub open spec fn final_ram<N, P>(world: World<N, P>, num_words: nat, rom_words: int) -> Seq<u32> {
    Seq::new(
        num_words,
        |i: int|
            if i < rom_words {
                0u32
            } else {
                world.words[(4 * i) as u64]
            },
    )
}

/// Whether `e` is what the execution from `start` leaves behind when it is run in chunks.
pub open spec fn is_execution<
    C: MachineConfig,
    ND: NonDeterminismCSRSource<VectorMemoryImplWithRom>,
    CSR: DelegationCSRProcessor,
>(
    start: World<ND::Model, CSR::Model>,
    per_chunk: nat,
    num_words: nat,
    rom_words: int,
    e: Execution,
) -> bool {
    let end = chunks::chunk_world::<C, VectorMemoryImplWithRom, ND, CSR>(
        start,
        per_chunk,
        e.circuits_needed as nat,
    )->Ok_0;
    &&& chunks::ends_after::<C, VectorMemoryImplWithRom, ND, CSR>(
        start,
        per_chunk,
        e.circuits_needed as nat,
    )
    &&& e.final_pc == end.cpu.pc
    &&& e.registers@ == end.cpu.regs
    &&& e.ram@ == final_ram(end, num_words, rom_words)
}

/// Whether a run in at most `max_chunks` chunks ends as `e` says, with the tracer, the source of
/// words and the delegation processor in the given states.
pub open spec fn is_outcome<
    C: MachineConfig,
    TR: ChunkTracer<C>,
    ND: NonDeterminismCSRSource<VectorMemoryImplWithRom>,
    CSR: DelegationCSRProcessor,
>(
    start: World<ND::Model, CSR::Model>,
    model: TR::Model,
    per_chunk: nat,
    max_chunks: int,
    num_words: nat,
    rom_words: int,
    e: Execution,
    after: TR::Model,
    source: ND::Model,
    processor: CSR::Model,
) -> bool {
    let end = chunks::chunk_world::<C, VectorMemoryImplWithRom, ND, CSR>(
        start,
        per_chunk,
        e.circuits_needed as nat,
    )->Ok_0;
    &&& e.circuits_needed <= max_chunks
    &&& is_execution::<C, ND, CSR>(start, per_chunk, num_words, rom_words, e)
    &&& after == chunks::chunk_model::<C, VectorMemoryImplWithRom, TR, ND, CSR>(
        start,
        model,
        per_chunk,
        e.circuits_needed as nat,
    )
    &&& source == end.oracle
    &&& processor == end.processor
}

/// The sizes that an execution can have.
pub open spec fn sizes_ok(
    num_cycles_upper_bound: int,
    trace_size: int,
    ram_size: int,
    second_word_bits: int,
    program_words: int,
) -> bool {
    &&& rom::is_power_of_two(trace_size)
    &&& trace_size > 1
    &&& chunks::first_timestamp(
        trace_size,
        chunks::chunks_for(num_cycles_upper_bound, trace_size - 1),
    ) <= u64::MAX
    &&& ram_size % 4 == 0
    &&& 0 <= second_word_bits <= 14
    &&& lookup::power_of_two(16 + second_word_bits) <= ram_size <= RAM_SIZE
    &&& program_words <= ram_size / 4
}

/// Runs a program in chunks that each fill a trace of `trace_size` rows, as many as the bound on
/// the number of cycles takes, until one of them ends the execution.
pub fn try_run_till_end<
    ND: NonDeterminismCSRSource<VectorMemoryImplWithRom>,
    C: MachineConfig,
    TR: ChunkTracer<C>,
    CSR: DelegationCSRProcessor,
    const ROM_ADDRESS_SPACE_SECOND_WORD_BITS: usize,
>(
    num_cycles_upper_bound: usize,
    trace_size: usize,
    ram_size: usize,
    binary: &[u32],
    non_determinism: &mut ND,
    tracer: &mut TR,
    csr_processor: &mut CSR,
) -> (r: Result<Execution, ExecutionFault>)
    requires
        sizes_ok(
            num_cycles_upper_bound as int,
            trace_size as int,
            ram_size as int,
            ROM_ADDRESS_SPACE_SECOND_WORD_BITS as int,
            binary@.len() as int,
        ),
    ensures
        ({
            let rom_words = lookup::power_of_two(16 + ROM_ADDRESS_SPACE_SECOND_WORD_BITS) / 4;
            let num_words = (ram_size / 4) as nat;
            let per_chunk = (trace_size - 1) as nat;
            let start = start_of(
                binary@,
                num_words,
                rom_words,
                old(non_determinism).model(),
                old(csr_processor).model(),
            );
            match r {
                Ok(e) => is_outcome::<C, TR, ND, CSR>(
                    start,
                    old(tracer).model(),
                    per_chunk,
                    chunks::chunks_for(num_cycles_upper_bound as int, per_chunk as int),
                    num_words,
                    rom_words,
                    e,
                    final(tracer).model(),
                    final(non_determinism).model(),
                    final(csr_processor).model(),
                ),
                Err(fault) => chunks::is_fault::<C, VectorMemoryImplWithRom, ND, CSR>(
                    start,
                    per_chunk,
                    chunks::chunks_for(num_cycles_upper_bound as int, per_chunk as int) as nat,
                    fault,
                ),
            }
        }),
{
    let rom_bound: usize = rom_size_of(ROM_ADDRESS_SPACE_SECOND_WORD_BITS);
    let mut memory = load_program(ram_size, rom_bound, binary);
    let cycles_per_chunk: usize = trace_size - 1;
    let num_chunks: usize = num_chunks_for(num_cycles_upper_bound, cycles_per_chunk);
    let mut state = RiscV32StateForUnrolledProver::<C>::initial(ENTRY_POINT);
    let ghost start = start_of(
        binary@,
        (ram_size / 4) as nat,
        (rom_bound / 4) as int,
        non_determinism.model(),
        csr_processor.model(),
    );
    proof {
        let world = state::world_of::<C, VectorMemoryImplWithRom, ND, CSR>(
            state,
            memory,
            *non_determinism,
            *csr_processor,
        );
        assert(world.words =~= start.words);
        assert(world.writable =~= start.writable);
        assert(world == start);
    }
    match try_run_chunks(
        &mut state,
        &mut memory,
        tracer,
        non_determinism,
        csr_processor,
        cycles_per_chunk,
        num_chunks,
    ) {
        Err(fault) => Err(fault),
        Ok(circuits_needed) => {
            proof {
                lemma_chunks_are_confined::<C, VectorMemoryImplWithRom, ND, CSR>(
                    start,
                    cycles_per_chunk as nat,
                    circuits_needed as nat,
                );
                let num_words = (ram_size / 4) as nat;
                assert(start.words.dom() =~= Set::new(
                    |a: u64| a % 4 == 0 && a / 4 < num_words,
                ));
                lemma_sizes(memory, num_words, (rom_bound / 4) as int);
            }
            let ghost end = chunks::chunk_world::<C, VectorMemoryImplWithRom, ND, CSR>(
                start,
                cycles_per_chunk as nat,
                circuits_needed as nat,
            )->Ok_0;
            let ram = memory.get_final_ram_state();
            assert(ram@ =~= final_ram(end, (ram_size / 4) as nat, (rom_bound / 4) as int));
            Ok(
                Execution {
                    final_pc: state.observable.pc,
                    circuits_needed,
                    registers: state.observable.registers,
                    ram,
                },
            )
        },
    }
}

/// Whether an execution in chunks comes to its end within the bound on the number of cycles.
pub open spec fn comes_to_an_end<
    ND: NonDeterminismCSRSource<VectorMemoryImplWithRom>,
    C: MachineConfig,
    CSR: DelegationCSRProcessor,
>(
    num_cycles_upper_bound: int,
    trace_size: int,
    second_word_bits: int,
    program: Seq<u32>,
    non_determinism: ND,
    csr_processor: CSR,
) -> bool {
    exists|n: nat|
        n <= chunks::chunks_for(num_cycles_upper_bound, trace_size - 1)
            && #[trigger] chunks::ends_after::<C, VectorMemoryImplWithRom, ND, CSR>(
            start_of(
                program,
                (RAM_SIZE / 4) as nat,
                lookup::power_of_two(16 + second_word_bits) / 4,
                non_determinism.model(),
                csr_processor.model(),
            ),
            (trace_size - 1) as nat,
            n,
        )
}

/// An execution that ends in some chunk has no other outcome.
proof fn lemma_end_excludes_fault<
    C: MachineConfig,
    M: MemorySource,
    ND: NonDeterminismCSRSource<M>,
    CSR: DelegationCSRProcessor,
>(
    world: World<ND::Model, CSR::Model>,
    per_chunk: nat,
    n: nat,
    num_chunks: nat,
    fault: ExecutionFault,
)
    requires
        n <= num_chunks,
        chunks::ends_after::<C, M, ND, CSR>(world, per_chunk, n),
    ensures
        !chunks::is_fault::<C, M, ND, CSR>(world, per_chunk, num_chunks, fault),
{
    let last = (n - 1) as nat;
    assert(chunks::chunk_finishes::<C, M, ND, CSR>(world, per_chunk, last));
    if let ExecutionFault::Fault { chunk, cycles, fault: _ } = fault {
        if last >= chunk && chunk < num_chunks && cycles < per_chunk
            && chunks::chunk_world::<C, M, ND, CSR>(world, per_chunk, chunk as nat) is Ok {
            run::lemma_run_prefix::<C, M, ND, CSR>(
                chunks::chunk_world::<C, M, ND, CSR>(world, per_chunk, chunk as nat)->Ok_0,
                (cycles + 1) as nat,
                per_chunk,
            );
            lemma_chunk_prefix::<C, M, ND, CSR>(world, per_chunk, (chunk + 1) as nat, n);
        }
    }
}

/// A faultless series of chunks has only faultless beginnings.
proof fn lemma_chunk_prefix<
    C: MachineConfig,
    M: MemorySource,
    ND: NonDeterminismCSRSource<M>,
    CSR: DelegationCSRProcessor,
>(world: World<ND::Model, CSR::Model>, per_chunk: nat, part: nat, whole: nat)
    requires
        part <= whole,
        chunks::chunk_world::<C, M, ND, CSR>(world, per_chunk, whole) is Ok,
    ensures
        chunks::chunk_world::<C, M, ND, CSR>(world, per_chunk, part) is Ok,
    decreases whole - part,
{
    if part < whole {
        lemma_chunk_prefix::<C, M, ND, CSR>(world, per_chunk, part, (whole - 1) as nat);
    }
}

/// Runs a program to its end and tells its last program counter and registers.
pub fn run_till_end_for_machine_config_without_tracing<
    ND: NonDeterminismCSRSource<VectorMemoryImplWithRom>,
    C: MachineConfig,
    CSR: DelegationCSRProcessor,
    const ROM_ADDRESS_SPACE_SECOND_WORD_BITS: usize,
>(
    num_cycles_upper_bound: usize,
    trace_size: usize,
    binary: &[u32],
    non_determinism: &mut ND,
    csr_processor: &mut CSR,
) -> (r: (u32, [u32; 32]))
    requires
        sizes_ok(
            num_cycles_upper_bound as int,
            trace_size as int,
            RAM_SIZE as int,
            ROM_ADDRESS_SPACE_SECOND_WORD_BITS as int,
            binary@.len() as int,
        ),
        comes_to_an_end::<ND, C, CSR>(
            num_cycles_upper_bound as int,
            trace_size as int,
            ROM_ADDRESS_SPACE_SECOND_WORD_BITS as int,
            binary@,
            *old(non_determinism),
            *old(csr_processor),
        ),
    ensures
        ({
            let rom_words = lookup::power_of_two(16 + ROM_ADDRESS_SPACE_SECOND_WORD_BITS) / 4;
            let num_words = (RAM_SIZE / 4) as nat;
            let per_chunk = (trace_size - 1) as nat;
            let start = start_of(
                binary@,
                num_words,
                rom_words,
                old(non_determinism).model(),
                old(csr_processor).model(),
            );
            exists|e: Execution| #[trigger]
                is_outcome::<C, (), ND, CSR>(
                    start,
                    (),
                    per_chunk,
                    chunks::chunks_for(num_cycles_upper_bound as int, per_chunk as int),
                    num_words,
                    rom_words,
                    e,
                    (),
                    final(non_determinism).model(),
                    final(csr_processor).model(),
                ) && r == (e.final_pc, e.registers)
        }),
{
    let mut tracer = ();
    let execution = run_till_end_for_gpu_for_machine_config::<
        ND,
        C,
        (),
        CSR,
        ROM_ADDRESS_SPACE_SECOND_WORD_BITS,
    >(
        num_cycles_upper_bound,
        trace_size,
        binary,
        non_determinism,
        &mut tracer,
        csr_processor,
    );
    (execution.final_pc, execution.registers)
}

/// Runs a program to its end under the eyes of a tracer.
pub fn run_till_end_for_gpu_for_machine_config<
    ND: NonDeterminismCSRSource<VectorMemoryImplWithRom>,
    C: MachineConfig,
    TR: ChunkTracer<C>,
    CSR: DelegationCSRProcessor,
    const ROM_ADDRESS_SPACE_SECOND_WORD_BITS: usize,
>(
    num_cycles_upper_bound: usize,
    trace_size: usize,
    binary: &[u32],
    non_determinism: &mut ND,
    tracer: &mut TR,
    csr_processor: &mut CSR,
) -> (r: Execution)
    requires
        sizes_ok(
            num_cycles_upper_bound as int,
            trace_size as int,
            RAM_SIZE as int,
            ROM_ADDRESS_SPACE_SECOND_WORD_BITS as int,
            binary@.len() as int,
        ),
        comes_to_an_end::<ND, C, CSR>(
            num_cycles_upper_bound as int,
            trace_size as int,
            ROM_ADDRESS_SPACE_SECOND_WORD_BITS as int,
            binary@,
            *old(non_determinism),
            *old(csr_processor),
        ),
    ensures
        ({
            let rom_words = lookup::power_of_two(16 + ROM_ADDRESS_SPACE_SECOND_WORD_BITS) / 4;
            let num_words = (RAM_SIZE / 4) as nat;
            let per_chunk = (trace_size - 1) as nat;
            let start = start_of(
                binary@,
                num_words,
                rom_words,
                old(non_determinism).model(),
                old(csr_processor).model(),
            );
            is_outcome::<C, TR, ND, CSR>(
                start,
                old(tracer).model(),
                per_chunk,
                chunks::chunks_for(num_cycles_upper_bound as int, per_chunk as int),
                num_words,
                rom_words,
                r,
                final(tracer).model(),
                final(non_determinism).model(),
                final(csr_processor).model(),
            )
        }),
{
    let ghost start = start_of(
        binary@,
        (RAM_SIZE / 4) as nat,
        lookup::power_of_two(16 + ROM_ADDRESS_SPACE_SECOND_WORD_BITS) / 4,
        non_determinism.model(),
        csr_processor.model(),
    );
    let ghost num_chunks = chunks::chunks_for(num_cycles_upper_bound as int, trace_size - 1);
    let ghost last = choose|n: nat|
        n <= num_chunks && #[trigger] chunks::ends_after::<C, VectorMemoryImplWithRom, ND, CSR>(
            start,
            (trace_size - 1) as nat,
            n,
        );
    let outcome = try_run_till_end::<ND, C, TR, CSR, ROM_ADDRESS_SPACE_SECOND_WORD_BITS>(
        num_cycles_upper_bound,
        trace_size,
        RAM_SIZE,
        binary,
        non_determinism,
        tracer,
        csr_processor,
    );
    match outcome {
        Ok(execution) => execution,
        Err(fault) => {
            proof {
                lemma_end_excludes_fault::<C, VectorMemoryImplWithRom, ND, CSR>(
                    start,
                    (trace_size - 1) as nat,
                    last,
                    num_chunks as nat,
                    fault,
                );
            }
            Execution { final_pc: 0, circuits_needed: 0, registers: [0u32;32], ram: Vec::new() }
        },
    }
}

/// Whether the records that are taken from a tracer after a run belong to that run, whatever its
/// outcome.
pub open spec fn takes_fitting_records<
    C: MachineConfig,
    TR: ChunkTracer<C>,
    ND: NonDeterminismCSRSource<VectorMemoryImplWithRom>,
    CSR: DelegationCSRProcessor,
    D,
    R,
    F: FnOnce(TR) -> TracerRecords<D, R>,
>(
    take_records: F,
    start: World<ND::Model, CSR::Model>,
    model: TR::Model,
    per_chunk: nat,
    max_chunks: int,
    num_words: nat,
    rom_words: int,
    sizes: Seq<usize>,
) -> bool {
    forall|e: Execution, t: TR, source: ND::Model, processor: CSR::Model| #[trigger]
        is_outcome::<C, TR, ND, CSR>(
            start,
            model,
            per_chunk,
            max_chunks,
            num_words,
            rom_words,
            e,
            t.model(),
            source,
            processor,
        ) ==> {
            &&& call_requires(take_records, (t,))
            &&& forall|records: TracerRecords<D, R>| #[trigger]
                call_ensures(take_records, (t,), records) ==> split::fits(records, e, sizes)
        }
}

/// Whether `r` is what a run is split into: the outcome of the run, and the records that are taken
/// from its tracer.
pub open spec fn is_split_run<
    C: MachineConfig,
    TR: ChunkTracer<C>,
    ND: NonDeterminismCSRSource<VectorMemoryImplWithRom>,
    CSR: DelegationCSRProcessor,
    D,
    R,
    F: FnOnce(TR) -> TracerRecords<D, R>,
>(
    r: SplitExecution<D, R>,
    take_records: F,
    start: World<ND::Model, CSR::Model>,
    model: TR::Model,
    per_chunk: nat,
    max_chunks: int,
    num_words: nat,
    rom_words: int,
    sizes: Seq<usize>,
    source: ND::Model,
    processor: CSR::Model,
) -> bool {
    exists|e: Execution, t: TR, records: TracerRecords<D, R>|
        #![trigger split::is_split(r, e, records, sizes), t.model()]
        {
            &&& is_outcome::<C, TR, ND, CSR>(
                start,
                model,
                per_chunk,
                max_chunks,
                num_words,
                rom_words,
                e,
                t.model(),
                source,
                processor,
            )
            &&& call_ensures(take_records, (t,), records)
            &&& split::is_split(r, e, records, sizes)
        }
}

/// Runs a program in chunks under the eyes of a tracer; if it comes to its end, takes the records
/// of that tracer and splits the execution into what its circuits are made from.
pub fn try_run_and_split<
    ND: NonDeterminismCSRSource<VectorMemoryImplWithRom>,
    C: MachineConfig,
    TR: ChunkTracer<C>,
    CSR: DelegationCSRProcessor,
    D,
    R,
    F: FnOnce(TR) -> TracerRecords<D, R>,
    const ROM_ADDRESS_SPACE_SECOND_WORD_BITS: usize,
>(
    num_cycles_upper_bound: usize,
    trace_size: usize,
    ram_size: usize,
    binary: &[u32],
    non_determinism: &mut ND,
    tracer: TR,
    csr_processor: &mut CSR,
    sizes: &[usize],
    take_records: F,
) -> (r: Result<SplitExecution<D, R>, ExecutionFault>)
    requires
        sizes_ok(
            num_cycles_upper_bound as int,
            trace_size as int,
            ram_size as int,
            ROM_ADDRESS_SPACE_SECOND_WORD_BITS as int,
            binary@.len() as int,
        ),
        ({
            let rom_words = lookup::power_of_two(16 + ROM_ADDRESS_SPACE_SECOND_WORD_BITS) / 4;
            let num_words = (ram_size / 4) as nat;
            takes_fitting_records::<C, TR, ND, CSR, D, R, F>(
                take_records,
                start_of(
                    binary@,
                    num_words,
                    rom_words,
                    old(non_determinism).model(),
                    old(csr_processor).model(),
                ),
                tracer.model(),
                (trace_size - 1) as nat,
                chunks::chunks_for(num_cycles_upper_bound as int, trace_size - 1),
                num_words,
                rom_words,
                sizes@,
            )
        }),
    ensures
        ({
            let rom_words = lookup::power_of_two(16 + ROM_ADDRESS_SPACE_SECOND_WORD_BITS) / 4;
            let num_words = (ram_size / 4) as nat;
            let per_chunk = (trace_size - 1) as nat;
            let max_chunks = chunks::chunks_for(num_cycles_upper_bound as int, trace_size - 1);
            let start = start_of(
                binary@,
                num_words,
                rom_words,
                old(non_determinism).model(),
                old(csr_processor).model(),
            );
            match r {
                Ok(parts) => is_split_run::<C, TR, ND, CSR, D, R, F>(
                    parts,
                    take_records,
                    start,
                    tracer.model(),
                    per_chunk,
                    max_chunks,
                    num_words,
                    rom_words,
                    sizes@,
                    final(non_determinism).model(),
                    final(csr_processor).model(),
                ),
                Err(fault) => chunks::is_fault::<C, VectorMemoryImplWithRom, ND, CSR>(
                    start,
                    per_chunk,
                    max_chunks as nat,
                    fault,
                ),
            }
        }),
{
    let mut tracer = tracer;
    match try_run_till_end::<ND, C, TR, CSR, ROM_ADDRESS_SPACE_SECOND_WORD_BITS>(
        num_cycles_upper_bound,
        trace_size,
        ram_size,
        binary,
        non_determinism,
        &mut tracer,
        csr_processor,
    ) {
        Err(fault) => Err(fault),
        Ok(execution) => {
            let records = take_records(tracer);
            Ok(split_execution(execution, records, sizes))
        },
    }
}

/// Runs a program of the main machine to its end under the eyes of a tracer, takes the records of
/// that tracer, and splits the execution into what its circuits are made from.
pub fn run_and_split_for_gpu<
    ND: NonDeterminismCSRSource<VectorMemoryImplWithRom>,
    C: MachineConfig,
    TR: ChunkTracer<C>,
    CSR: DelegationCSRProcessor,
    D,
    R,
    F: FnOnce(TR) -> TracerRecords<D, R>,
>(
    num_cycles_upper_bound: usize,
    domain_size: usize,
    binary: &[u32],
    non_determinism: &mut ND,
    tracer: TR,
    csr_processor: &mut CSR,
    sizes: &[usize],
    take_records: F,
) -> (r: SplitExecution<D, R>)
    requires
        sizes_ok(
            num_cycles_upper_bound as int,
            domain_size as int,
            RAM_SIZE as int,
            5,
            binary@.len() as int,
        ),
        comes_to_an_end::<ND, C, CSR>(
            num_cycles_upper_bound as int,
            domain_size as int,
            5,
            binary@,
            *old(non_determinism),
            *old(csr_processor),
        ),
        takes_fitting_records::<C, TR, ND, CSR, D, R, F>(
            take_records,
            start_of(
                binary@,
                (RAM_SIZE / 4) as nat,
                (MAX_ROM_SIZE / 4) as int,
                old(non_determinism).model(),
                old(csr_processor).model(),
            ),
            tracer.model(),
            (domain_size - 1) as nat,
            chunks::chunks_for(num_cycles_upper_bound as int, domain_size - 1),
            (RAM_SIZE / 4) as nat,
            (MAX_ROM_SIZE / 4) as int,
            sizes@,
        ),
    ensures
        is_split_run::<C, TR, ND, CSR, D, R, F>(
            r,
            take_records,
            start_of(
                binary@,
                (RAM_SIZE / 4) as nat,
                (MAX_ROM_SIZE / 4) as int,
                old(non_determinism).model(),
                old(csr_processor).model(),
            ),
            tracer.model(),
            (domain_size - 1) as nat,
            chunks::chunks_for(num_cycles_upper_bound as int, domain_size - 1),
            (RAM_SIZE / 4) as nat,
            (MAX_ROM_SIZE / 4) as int,
            sizes@,
            final(non_determinism).model(),
            final(csr_processor).model(),
        ),
{
    proof {
        riscv_cycles::law_sizes_fit();
    }
    let mut tracer = tracer;
    let execution = run_till_end_for_gpu_for_machine_config::<
        ND,
        C,
        TR,
        CSR,
        ROM_ADDRESS_SPACE_SECOND_WORD_BITS,
    >(num_cycles_upper_bound, domain_size, binary, non_determinism, &mut tracer, csr_processor);
    let records = take_records(tracer);
    split_execution(execution, records, sizes)
}

/// The size of a program memory with that many address bits beyond 16.
fn rom_size_of(second_word_bits: usize) -> (r: usize)
    requires
        second_word_bits <= 14,
    ensures
        r == lookup::power_of_two(16 + second_word_bits),
        r % 4 == 0,
{
    proof {
        vstd::arithmetic::power2::lemma2_to64();
        vstd::arithmetic::power2::lemma_pow2_adds(2, (14 + second_word_bits) as nat);
        if second_word_bits < 14 {
            vstd::arithmetic::power2::lemma_pow2_strictly_increases(
                (16 + second_word_bits) as nat,
                30,
            );
        }
    }
    rom_bound(second_word_bits as u32) as usize
}

/// Running chunks changes neither which addresses there are nor which may be written.
proof fn lemma_chunks_are_confined<
    C: MachineConfig,
    M: MemorySource,
    ND: NonDeterminismCSRSource<M>,
    CSR: DelegationCSRProcessor,
>(world: World<ND::Model, CSR::Model>, per_chunk: nat, k: nat)
    requires
        run::registers_ok(world),
        chunks::chunk_world::<C, M, ND, CSR>(world, per_chunk, k) is Ok,
    ensures
        run::is_confined(world, chunks::chunk_world::<C, M, ND, CSR>(world, per_chunk, k)->Ok_0),
{
    chunks::law_chunks_are_one_run::<C, M, ND, CSR>(world, per_chunk, k);
    run::law_runs_are_confined::<C, M, ND, CSR>(world, k * per_chunk);
}

/// The addresses of a memory tell its size, and those that may be written the size of its program.
proof fn lemma_sizes(memory: VectorMemoryImplWithRom, num_words: nat, rom_words: int)
    requires
        num_words <= RAM_SIZE,
        0 <= rom_words <= RAM_SIZE,
        memory.words().dom() == Set::new(|a: u64| a % 4 == 0 && a / 4 < num_words),
        memory.writable() == Set::new(|a: u64| a / 4 >= rom_words),
    ensures
        memory.contents().len() == num_words,
        memory.rom_size() == rom_words,
        forall|i: int|
            0 <= i < num_words ==> #[trigger] memory.contents()[i] == memory.words()[(4 * i) as u64],
{
    memory.lemma_rom_size();
    let n = memory.contents().len();
    if n < num_words {
        let a = (4 * n) as u64;
        assert(memory.words().dom().contains(a));
    }
    if n > num_words {
        let a = (4 * num_words) as u64;
        assert(memory.words().dom().contains(a));
    }
    let m = memory.rom_size();
    if m < rom_words {
        let a = (4 * m) as u64;
        assert(memory.writable().contains(a));
    }
    if m > rom_words {
        let a = (4 * rom_words) as u64;
        assert(memory.writable().contains(a));
    }
    assert forall|i: int| 0 <= i < num_words implies #[trigger] memory.contents()[i]
        == memory.words()[(4 * i) as u64] by {
        let a = (4 * i) as u64;
        assert(a / 4 == i);
        assert(memory.words().dom().contains(a));
    }
}

/// A program starts at address zero with all registers zero, in a memory that holds its words from
/// address zero on and zeros behind them, of which it may write those behind the program memory.
pub proof fn law_start_of_execution<N, P>(
    program: Seq<u32>,
    num_words: nat,
    rom_words: nat,
    oracle: N,
    processor: P,
    address: u64,
    register: int,
)
    requires
        program.len() <= num_words,
        0 <= register < 32,
    ensures
        ({
            let world = start_of(program, num_words, rom_words as int, oracle, processor);
            &&& world.cpu.pc == 0
            &&& world.cpu.regs.len() == 32
            &&& world.cpu.regs[register] == 0
            &&& world.words.contains_key(address) <==> address % 4 == 0 && address < 4 * num_words
            &&& address % 4 == 0 && address < 4 * program.len() ==> world.words[address]
                == program[address as int / 4]
            &&& address % 4 == 0 && 4 * program.len() <= address < 4 * num_words
                ==> world.words[address] == 0
            &&& address % 4 == 0 ==> (world.writable.contains(address) <==> address >= 4
                * rom_words)
            &&& world.oracle == oracle
            &&& world.processor == processor
        }),
{
}

/// What an execution leaves behind is the state after all cycles of its chunks, of which the last
/// one got to the end of the program: the program counter, the registers, and the words of memory
/// with the program memory blanked out.
pub proof fn law_outcome_is_that_of_the_run<
    C: MachineConfig,
    TR: ChunkTracer<C>,
    ND: NonDeterminismCSRSource<VectorMemoryImplWithRom>,
    CSR: DelegationCSRProcessor,
>(
    start: World<ND::Model, CSR::Model>,
    model: TR::Model,
    per_chunk: nat,
    max_chunks: int,
    num_words: nat,
    rom_words: int,
    e: Execution,
    after: TR::Model,
    source: ND::Model,
    processor: CSR::Model,
    i: int,
)
    requires
        is_outcome::<C, TR, ND, CSR>(
            start,
            model,
            per_chunk,
            max_chunks,
            num_words,
            rom_words,
            e,
            after,
            source,
            processor,
        ),
        0 <= i < num_words,
    ensures
        ({
            let n = e.circuits_needed as nat;
            let whole = run::run::<C, VectorMemoryImplWithRom, ND, CSR>(start, n * per_chunk);
            let before = run::run::<C, VectorMemoryImplWithRom, ND, CSR>(
                start,
                ((n - 1) * per_chunk) as nat,
            );
            &&& 0 < n <= max_chunks
            &&& whole is Ok
            &&& whole->Ok_0.finished
            &&& !before->Ok_0.finished
            &&& e.final_pc == whole->Ok_0.world.cpu.pc
            &&& e.registers@ == whole->Ok_0.world.cpu.regs
            &&& e.ram@.len() == num_words
            &&& i < rom_words ==> e.ram@[i] == 0
            &&& i >= rom_words ==> e.ram@[i] == whole->Ok_0.world.words[(4 * i) as u64]
            &&& source == whole->Ok_0.world.oracle
            &&& processor == whole->Ok_0.world.processor
        }),
{
    let n = e.circuits_needed as nat;
    chunks::law_execution_ends_with_the_run::<C, VectorMemoryImplWithRom, ND, CSR>(
        start,
        per_chunk,
        n,
    );
    chunks::law_chunks_are_one_run::<C, VectorMemoryImplWithRom, ND, CSR>(start, per_chunk, n);
}

/// What a run is split into tells of its end: there are as many circuits as chunks were needed, and
/// the program counter and the registers are those of the state after all cycles of these chunks,
/// of which the last one got to the end of the program.
pub proof fn law_split_run_tells_of_the_run<
    C: MachineConfig,
    TR: ChunkTracer<C>,
    ND: NonDeterminismCSRSource<VectorMemoryImplWithRom>,
    CSR: DelegationCSRProcessor,
    D,
    R,
    F: FnOnce(TR) -> TracerRecords<D, R>,
>(
    r: SplitExecution<D, R>,
    take_records: F,
    start: World<ND::Model, CSR::Model>,
    model: TR::Model,
    per_chunk: nat,
    max_chunks: int,
    num_words: nat,
    rom_words: int,
    sizes: Seq<usize>,
    source: ND::Model,
    processor: CSR::Model,
    i: int,
)
    requires
        is_split_run::<C, TR, ND, CSR, D, R, F>(
            r,
            take_records,
            start,
            model,
            per_chunk,
            max_chunks,
            num_words,
            rom_words,
            sizes,
            source,
            processor,
        ),
        num_words > 0,
        0 <= i < 32,
    ensures
        ({
            let n = r.main_circuit_traces@.len();
            let whole = run::run::<C, VectorMemoryImplWithRom, ND, CSR>(start, n * per_chunk);
            let before = run::run::<C, VectorMemoryImplWithRom, ND, CSR>(
                start,
                ((n - 1) * per_chunk) as nat,
            );
            &&& 0 < n <= max_chunks
            &&& whole is Ok
            &&& whole->Ok_0.finished
            &&& !before->Ok_0.finished
            &&& r.final_pc == whole->Ok_0.world.cpu.pc
            &&& r.register_final_values@.len() == 32
            &&& r.register_final_values@[i].value == whole->Ok_0.world.cpu.regs[i]
            &&& r.lazy_init_teardown_data@.len() == sizes.len()
            &&& source == whole->Ok_0.world.oracle
            &&& processor == whole->Ok_0.world.processor
        }),
{
    let (e, t, records) = choose|e: Execution, t: TR, records: TracerRecords<D, R>|
        #![trigger split::is_split(r, e, records, sizes), t.model()]
        {
            &&& is_outcome::<C, TR, ND, CSR>(
                start,
                model,
                per_chunk,
                max_chunks,
                num_words,
                rom_words,
                e,
                t.model(),
                source,
                processor,
            )
            &&& call_ensures(take_records, (t,), records)
            &&& split::is_split(r, e, records, sizes)
        };
    law_outcome_is_that_of_the_run::<C, TR, ND, CSR>(
        start,
        model,
        per_chunk,
        max_chunks,
        num_words,
        rom_words,
        e,
        t.model(),
        source,
        processor,
        0,
    );
}

/// A program starts at address zero of a memory of `2^30` bytes.
pub proof fn law_memory_of_programs()
    ensures
        ENTRY_POINT == 0,
        RAM_SIZE == vstd::arithmetic::power2::pow2(30),
{
    vstd::arithmetic::power2::lemma2_to64();
}

} // verus!
