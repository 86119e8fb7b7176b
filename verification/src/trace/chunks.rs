//! Runs that are cut into chunks of equal length, each of which fills one circuit.
use crate::simulator::abstractions;
use crate::simulator::abstractions::{
    DelegationCSRProcessor, MemorySource, NonDeterminismCSRSource, Tracer,
};
use crate::simulator::config::MachineConfig;
use crate::simulator::isa::CycleFault;
use crate::simulator::run;
use crate::simulator::state;
use crate::simulator::state::{RiscV32StateForUnrolledProver, World};
use vstd::prelude::*;

verus! {

/// A tracer that is told when a new chunk begins.
pub trait ChunkTracer<C: MachineConfig>: Tracer<C> {
    /// How the beginning of a chunk, whose first access has `timestamp`, changes what is remembered.
    spec fn next_chunk(model: Self::Model, timestamp: u64) -> Self::Model;

    fn prepare_for_next_chunk(&mut self, timestamp: u64)
        ensures
            final(self).model() == Self::next_chunk(old(self).model(), timestamp),
    ;
}

impl<C: MachineConfig> ChunkTracer<C> for () {
    open spec fn next_chunk(model: Self::Model, timestamp: u64) -> Self::Model {
        model
    }

    fn prepare_for_next_chunk(&mut self, timestamp: u64) {
    }
}

/// The timestamp of the first access of the first chunk.
pub const INITIAL_TIMESTAMP: u64 = 4;

/// The timestamp of the first access of a chunk.
pub open spec fn first_timestamp(trace_size: int, chunk: int) -> int {
    trace_size * chunk + INITIAL_TIMESTAMP
}

/// The first timestamps of chunks ascend from the initial one, by the length of a trace each.
pub proof fn law_first_timestamps(trace_size: int, chunk: int)
    ensures
        first_timestamp(trace_size, 0) == INITIAL_TIMESTAMP == 4,
        first_timestamp(trace_size, chunk + 1) == first_timestamp(trace_size, chunk) + trace_size,
{
    assert(trace_size * 0 == 0 && trace_size * (chunk + 1) == trace_size * chunk + trace_size)
        by (nonlinear_arith);
}

proof fn lemma_first_timestamps_ascend(trace_size: int, chunk: int, later: int)
    requires
        trace_size >= 0,
        0 <= chunk <= later,
    ensures
        INITIAL_TIMESTAMP <= first_timestamp(trace_size, chunk) <= first_timestamp(
            trace_size,
            later,
        ),
{
    assert(0 <= trace_size * chunk <= trace_size * later) by (nonlinear_arith)
        requires
            trace_size >= 0,
            0 <= chunk <= later,
    ;
}

/// The number of chunks that `cycles` cycles take up.
pub open spec fn chunks_for(cycles: int, per_chunk: int) -> int
    recommends
        per_chunk > 0,
{
    (cycles + per_chunk - 1) / per_chunk
}

/// The number of chunks that `num_cycles` cycles take up.
pub fn num_chunks_for(num_cycles: usize, cycles_per_chunk: usize) -> (r: usize)
    requires
        cycles_per_chunk > 0,
    ensures
        r == chunks_for(num_cycles as int, cycles_per_chunk as int),
{
    let whole: usize = num_cycles / cycles_per_chunk;
    let rest: usize = num_cycles % cycles_per_chunk;
    proof {
        let n = num_cycles as int;
        let c = cycles_per_chunk as int;
        vstd::arithmetic::div_mod::lemma_fundamental_div_mod(n, c);
        assert(whole < usize::MAX || rest == 0) by (nonlinear_arith)
            requires
                n == c * whole + rest,
                c > 0,
                rest < c,
                rest >= 0,
                whole >= 0,
                n <= usize::MAX,
        ;
        if rest == 0 {
            assert((n + c - 1) == whole * c + (c - 1)) by (nonlinear_arith)
                requires
                    n == c * whole + rest,
                    rest == 0,
            ;
            vstd::arithmetic::div_mod::lemma_fundamental_div_mod_converse(
                n + c - 1,
                c,
                whole as int,
                c - 1,
            );
        } else {
            assert((n + c - 1) == (whole + 1) * c + (rest - 1)) by (nonlinear_arith)
                requires
                    n == c * whole + rest,
            ;
            vstd::arithmetic::div_mod::lemma_fundamental_div_mod_converse(
                n + c - 1,
                c,
                whole + 1,
                rest - 1,
            );
        }
    }
    if rest == 0 {
        whole
    } else {
        whole + 1
    }
}

/// The chunks cover the cycles, and none of them is left over.
pub proof fn law_chunks_are_just_enough(cycles: int, per_chunk: int)
    requires
        0 <= cycles,
        0 < per_chunk,
    ensures
        cycles <= chunks_for(cycles, per_chunk) * per_chunk < cycles + per_chunk,
{
    let n = chunks_for(cycles, per_chunk);
    vstd::arithmetic::div_mod::lemma_fundamental_div_mod(cycles + per_chunk - 1, per_chunk);
    assert(per_chunk * n == n * per_chunk) by (nonlinear_arith);
}

/// The world before chunk `k`.
pub open spec fn chunk_world<
    C: MachineConfig,
    M: MemorySource,
    ND: NonDeterminismCSRSource<M>,
    CSR: DelegationCSRProcessor,
>(world: World<ND::Model, CSR::Model>, per_chunk: nat, k: nat) -> Result<
    World<ND::Model, CSR::Model>,
    CycleFault,
>
    decreases k,
{
    if k == 0 {
        Ok(world)
    } else {
        match chunk_world::<C, M, ND, CSR>(world, per_chunk, (k - 1) as nat) {
            Err(fault) => Err(fault),
            Ok(w) => match run::run::<C, M, ND, CSR>(w, per_chunk) {
                Err(fault) => Err(fault),
                Ok(done) => Ok(done.world),
            },
        }
    }
}

/// Whether chunk `k` is run without a fault and ends the execution.
pub open spec fn chunk_finishes<
    C: MachineConfig,
    M: MemorySource,
    ND: NonDeterminismCSRSource<M>,
    CSR: DelegationCSRProcessor,
>(world: World<ND::Model, CSR::Model>, per_chunk: nat, k: nat) -> bool {
    match chunk_world::<C, M, ND, CSR>(world, per_chunk, k) {
        Err(_) => false,
        Ok(w) => match run::run::<C, M, ND, CSR>(w, per_chunk) {
            Err(_) => false,
            Ok(done) => done.finished,
        },
    }
}

/// What the tracer remembers after chunk `k` chunks.
pub open spec fn chunk_model<
    C: MachineConfig,
    M: MemorySource,
    TR: ChunkTracer<C>,
    ND: NonDeterminismCSRSource<M>,
    CSR: DelegationCSRProcessor,
>(world: World<ND::Model, CSR::Model>, model: TR::Model, per_chunk: nat, k: nat) -> TR::Model
    decreases k,
{
    if k == 0 {
        model
    } else {
        let last = (k - 1) as nat;
        abstractions::observe_all::<C, TR>(
            chunk_opening::<C, TR>(
                chunk_model::<C, M, TR, ND, CSR>(world, model, per_chunk, last),
                per_chunk,
                last,
            ),
            run::run::<C, M, ND, CSR>(
                chunk_world::<C, M, ND, CSR>(world, per_chunk, last)->Ok_0,
                per_chunk,
            )->Ok_0.events,
        )
    }
}

/// What the tracer remembers when chunk `k` begins: of the first it is not told, of the others it is
/// told the timestamp of the first access.
pub open spec fn chunk_opening<C: MachineConfig, TR: ChunkTracer<C>>(
    model: TR::Model,
    per_chunk: nat,
    k: nat,
) -> TR::Model {
    if k == 0 {
        model
    } else {
        TR::next_chunk(model, first_timestamp(per_chunk as int + 1, k as int) as u64)
    }
}

/// Whether the execution ends in chunk number `n`, counted from one, and not before.
pub open spec fn ends_after<
    C: MachineConfig,
    M: MemorySource,
    ND: NonDeterminismCSRSource<M>,
    CSR: DelegationCSRProcessor,
>(world: World<ND::Model, CSR::Model>, per_chunk: nat, n: nat) -> bool {
    &&& n > 0
    &&& chunk_finishes::<C, M, ND, CSR>(world, per_chunk, (n - 1) as nat)
    &&& forall|j: nat|
        j < n - 1 ==> !#[trigger] chunk_finishes::<C, M, ND, CSR>(world, per_chunk, j)
}

/// Why an execution has no result.
#[derive(Clone, Copy, Debug, PartialEq, Eq)]
pub enum ExecutionFault {
    /// No chunk ended the execution.
    EndNeverReached,
    /// In the chunk `chunk`, after `cycles` cycles of it.
    Fault { chunk: usize, cycles: usize, fault: CycleFault },
}

/// What it means that `num_chunks` chunks give no result.
pub open spec fn is_fault<
    C: MachineConfig,
    M: MemorySource,
    ND: NonDeterminismCSRSource<M>,
    CSR: DelegationCSRProcessor,
>(
    world: World<ND::Model, CSR::Model>,
    per_chunk: nat,
    num_chunks: nat,
    fault: ExecutionFault,
) -> bool {
    match fault {
        ExecutionFault::EndNeverReached => {
            &&& chunk_world::<C, M, ND, CSR>(world, per_chunk, num_chunks) is Ok
            &&& forall|j: nat|
                j < num_chunks ==> !#[trigger] chunk_finishes::<C, M, ND, CSR>(
                    world,
                    per_chunk,
                    j,
                )
        },
        ExecutionFault::Fault { chunk, cycles, fault } => {
            &&& chunk < num_chunks
            &&& cycles < per_chunk
            &&& chunk_world::<C, M, ND, CSR>(world, per_chunk, chunk as nat) is Ok
            &&& run::run::<C, M, ND, CSR>(
                chunk_world::<C, M, ND, CSR>(world, per_chunk, chunk as nat)->Ok_0,
                cycles as nat,
            ) is Ok
            &&& run::run::<C, M, ND, CSR>(
                chunk_world::<C, M, ND, CSR>(world, per_chunk, chunk as nat)->Ok_0,
                (cycles + 1) as nat,
            ) == Err::<run::Run<ND::Model, CSR::Model>, CycleFault>(fault)
            &&& forall|j: nat|
                j < chunk ==> !#[trigger] chunk_finishes::<C, M, ND, CSR>(world, per_chunk, j)
        },
    }
}

/// Runs chunks until one ends the execution, and tells how many were needed.
pub fn try_run_chunks<
    C: MachineConfig,
    M: MemorySource,
    TR: ChunkTracer<C>,
    ND: NonDeterminismCSRSource<M>,
    CSR: DelegationCSRProcessor,
>(
    state: &mut RiscV32StateForUnrolledProver<C>,
    memory: &mut M,
    tracer: &mut TR,
    non_determinism: &mut ND,
    csr_processor: &mut CSR,
    cycles_per_chunk: usize,
    num_chunks: usize,
) -> (r: Result<usize, ExecutionFault>)
    requires
        cycles_per_chunk < usize::MAX,
        first_timestamp(cycles_per_chunk + 1, num_chunks as int) <= u64::MAX,
    ensures
        ({
            let before = state::world_of(
                *old(state),
                *old(memory),
                *old(non_determinism),
                *old(csr_processor),
            );
            let per_chunk = cycles_per_chunk as nat;
            match r {
                Ok(n) => {
                    &&& n <= num_chunks
                    &&& ends_after::<C, M, ND, CSR>(before, per_chunk, n as nat)
                    &&& chunk_world::<C, M, ND, CSR>(before, per_chunk, n as nat)
                        == Ok::<World<ND::Model, CSR::Model>, CycleFault>(
                        state::world_of(
                            *final(state),
                            *final(memory),
                            *final(non_determinism),
                            *final(csr_processor),
                        ),
                    )
                    &&& final(tracer).model() == chunk_model::<C, M, TR, ND, CSR>(
                        before,
                        old(tracer).model(),
                        per_chunk,
                        n as nat,
                    )
                },
                Err(fault) => is_fault::<C, M, ND, CSR>(
                    before,
                    per_chunk,
                    num_chunks as nat,
                    fault,
                ),
            }
        }),
{
    let ghost before = state::world_of(*state, *memory, *non_determinism, *csr_processor);
    let ghost start = tracer.model();
    let ghost per_chunk = cycles_per_chunk as nat;
    let trace_size: u64 = cycles_per_chunk as u64 + 1;
    let mut timestamp: u64 = INITIAL_TIMESTAMP;
    let mut chunk_idx: usize = 0;
    proof {
        law_first_timestamps(trace_size as int, 0);
    }
    while chunk_idx < num_chunks
        invariant
            chunk_idx <= num_chunks,
            trace_size == cycles_per_chunk + 1,
            first_timestamp(trace_size as int, num_chunks as int) <= u64::MAX,
            timestamp == first_timestamp(trace_size as int, chunk_idx as int),
            per_chunk == cycles_per_chunk,
            start == old(tracer).model(),
            before == state::world_of(
                *old(state),
                *old(memory),
                *old(non_determinism),
                *old(csr_processor),
            ),
            chunk_world::<C, M, ND, CSR>(before, per_chunk, chunk_idx as nat) == Ok::<
                World<ND::Model, CSR::Model>,
                CycleFault,
            >(state::world_of(*state, *memory, *non_determinism, *csr_processor)),
            tracer.model() == chunk_model::<C, M, TR, ND, CSR>(
                before,
                start,
                per_chunk,
                chunk_idx as nat,
            ),
            forall|j: nat|
                j < chunk_idx ==> !#[trigger] chunk_finishes::<C, M, ND, CSR>(
                    before,
                    per_chunk,
                    j,
                ),
        decreases num_chunks - chunk_idx,
    {
        if chunk_idx != 0 {
            tracer.prepare_for_next_chunk(timestamp);
        }
        match state.try_run_cycles(
            memory,
            tracer,
            non_determinism,
            csr_processor,
            cycles_per_chunk,
        ) {
            Ok(finished) => {
                proof {
                    law_first_timestamps(trace_size as int, chunk_idx as int);
                    lemma_first_timestamps_ascend(
                        trace_size as int,
                        chunk_idx + 1,
                        num_chunks as int,
                    );
                }
                timestamp = timestamp + trace_size;
                chunk_idx = chunk_idx + 1;
                assert((chunk_idx as nat - 1) as nat == chunk_idx - 1);
                if finished {
                    return Ok(chunk_idx);
                }
                assert forall|j: nat| j < chunk_idx implies !#[trigger] chunk_finishes::<
                    C,
                    M,
                    ND,
                    CSR,
                >(before, per_chunk, j) by {
                    if j == chunk_idx - 1 {
                    }
                }
            },
            Err((cycles, fault)) => {
                return Err(ExecutionFault::Fault { chunk: chunk_idx, cycles, fault });
            },
        }
    }
    Err(ExecutionFault::EndNeverReached)
}

/// Cutting a run into chunks changes nothing: after `k` chunks the world is that after as many
/// cycles without a cut.
pub proof fn law_chunks_are_one_run<
    C: MachineConfig,
    M: MemorySource,
    ND: NonDeterminismCSRSource<M>,
    CSR: DelegationCSRProcessor,
>(world: World<ND::Model, CSR::Model>, per_chunk: nat, k: nat)
    ensures
        chunk_world::<C, M, ND, CSR>(world, per_chunk, k) == match run::run::<C, M, ND, CSR>(
            world,
            k * per_chunk,
        ) {
            Err(fault) => Err::<World<ND::Model, CSR::Model>, CycleFault>(fault),
            Ok(done) => Ok::<World<ND::Model, CSR::Model>, CycleFault>(done.world),
        },
    decreases k,
{
    if k == 0 {
        assert(k * per_chunk == 0) by (nonlinear_arith)
            requires
                k == 0,
        ;
    } else {
        let last = (k - 1) as nat;
        law_chunks_are_one_run::<C, M, ND, CSR>(world, per_chunk, last);
        run::law_runs_compose::<C, M, ND, CSR>(world, last * per_chunk, per_chunk);
        assert(last * per_chunk + per_chunk == k * per_chunk) by (nonlinear_arith)
            requires
                last == k - 1,
        ;
    }
}

/// Whether some cycle of a run in chunks ended the program.
proof fn lemma_finished_in_some_chunk<
    C: MachineConfig,
    M: MemorySource,
    ND: NonDeterminismCSRSource<M>,
    CSR: DelegationCSRProcessor,
>(
    world: World<ND::Model, CSR::Model>,
    per_chunk: nat,
    k: nat,
)
    ensures
        ({
            let whole = run::run::<C, M, ND, CSR>(world, k * per_chunk);
            whole is Ok ==> (whole->Ok_0.finished <==> exists|j: nat|
                j < k && #[trigger] chunk_finishes::<C, M, ND, CSR>(world, per_chunk, j))
        }),
    decreases k,
{
    if k == 0 {
        assert(k * per_chunk == 0) by (nonlinear_arith)
            requires
                k == 0,
        ;
    } else {
        let last = (k - 1) as nat;
        lemma_finished_in_some_chunk::<C, M, ND, CSR>(world, per_chunk, last);
        law_chunks_are_one_run::<C, M, ND, CSR>(world, per_chunk, last);
        run::law_runs_compose::<C, M, ND, CSR>(world, last * per_chunk, per_chunk);
        assert(last * per_chunk + per_chunk == k * per_chunk) by (nonlinear_arith)
            requires
                last == k - 1,
        ;
        let whole = run::run::<C, M, ND, CSR>(world, k * per_chunk);
        if whole is Ok {
            if whole->Ok_0.finished {
                if chunk_finishes::<C, M, ND, CSR>(world, per_chunk, last) {
                } else {
                    let j = choose|j: nat|
                        j < last && #[trigger] chunk_finishes::<C, M, ND, CSR>(
                            world,
                            per_chunk,
                            j,
                        );
                    assert(chunk_finishes::<C, M, ND, CSR>(world, per_chunk, j));
                }
            } else {
                assert(!chunk_finishes::<C, M, ND, CSR>(world, per_chunk, last));
                assert forall|j: nat| j < k implies !#[trigger] chunk_finishes::<C, M, ND, CSR>(
                    world,
                    per_chunk,
                    j,
                ) by {}
            }
        }
    }
}

/// An execution in chunks ends after `n` chunks if and only if the run without cuts got to its end
/// by then, and not one chunk before.
pub proof fn law_execution_ends_with_the_run<
    C: MachineConfig,
    M: MemorySource,
    ND: NonDeterminismCSRSource<M>,
    CSR: DelegationCSRProcessor,
>(
    world: World<ND::Model, CSR::Model>,
    per_chunk: nat,
    n: nat,
)
    requires
        n > 0,
    ensures
        ({
            let before = run::run::<C, M, ND, CSR>(world, ((n - 1) * per_chunk) as nat);
            let after = run::run::<C, M, ND, CSR>(world, n * per_chunk);
            ends_after::<C, M, ND, CSR>(world, per_chunk, n) <==> after is Ok
                && after->Ok_0.finished && !before->Ok_0.finished
        }),
{
    let last = (n - 1) as nat;
    let before = run::run::<C, M, ND, CSR>(world, last * per_chunk);
    let after = run::run::<C, M, ND, CSR>(world, n * per_chunk);
    assert(last * per_chunk == (n - 1) * per_chunk);
    assert((n - 1) * per_chunk >= 0 && last * per_chunk + per_chunk == n * per_chunk)
        by (nonlinear_arith)
        requires
            last == n - 1,
            last >= 0,
            per_chunk >= 0,
    ;
    lemma_finished_in_some_chunk::<C, M, ND, CSR>(world, per_chunk, last);
    lemma_finished_in_some_chunk::<C, M, ND, CSR>(world, per_chunk, n);
    law_chunks_are_one_run::<C, M, ND, CSR>(world, per_chunk, last);
    law_chunks_are_one_run::<C, M, ND, CSR>(world, per_chunk, n);
    run::lemma_run_prefix::<C, M, ND, CSR>(world, last * per_chunk, n * per_chunk);
    run::law_runs_compose::<C, M, ND, CSR>(world, last * per_chunk, per_chunk);
    if after is Ok && after->Ok_0.finished && !before->Ok_0.finished {
        let j = choose|j: nat|
            j < n && #[trigger] chunk_finishes::<C, M, ND, CSR>(world, per_chunk, j);
        assert(chunk_finishes::<C, M, ND, CSR>(world, per_chunk, j));
        assert(j == last);
        assert forall|i: nat| i < n - 1 implies !#[trigger] chunk_finishes::<C, M, ND, CSR>(
            world,
            per_chunk,
            i,
        ) by {}
    }
}

/// An execution in chunks has no result if and only if the run without cuts does not get to its end
/// within all chunks, or meets an instruction that cannot be executed before that; of the latter it
/// is told in which chunk and after how many cycles of it that was.
pub proof fn law_executions_without_result<
    C: MachineConfig,
    M: MemorySource,
    ND: NonDeterminismCSRSource<M>,
    CSR: DelegationCSRProcessor,
>(
    world: World<ND::Model, CSR::Model>,
    per_chunk: nat,
    num_chunks: nat,
    chunk: usize,
    cycles: usize,
    fault: CycleFault,
)
    requires
        chunk < num_chunks,
        cycles < per_chunk,
    ensures
        is_fault::<C, M, ND, CSR>(world, per_chunk, num_chunks, ExecutionFault::EndNeverReached)
            <==> run::run::<C, M, ND, CSR>(world, num_chunks * per_chunk) is Ok && !run::run::<
            C,
            M,
            ND,
            CSR,
        >(world, num_chunks * per_chunk)->Ok_0.finished,
        ({
            let done = (chunk * per_chunk) as nat;
            is_fault::<C, M, ND, CSR>(
                world,
                per_chunk,
                num_chunks,
                ExecutionFault::Fault { chunk, cycles, fault },
            ) <==> {
                &&& run::run::<C, M, ND, CSR>(world, done + cycles as nat) is Ok
                &&& run::run::<C, M, ND, CSR>(world, (done + cycles + 1) as nat) == Err::<
                    run::Run<ND::Model, CSR::Model>,
                    CycleFault,
                >(fault)
                &&& !run::run::<C, M, ND, CSR>(world, done)->Ok_0.finished
            }
        }),
{
    let whole = run::run::<C, M, ND, CSR>(world, num_chunks * per_chunk);
    lemma_finished_in_some_chunk::<C, M, ND, CSR>(world, per_chunk, num_chunks);
    law_chunks_are_one_run::<C, M, ND, CSR>(world, per_chunk, num_chunks);
    if whole is Ok && !whole->Ok_0.finished {
        assert forall|j: nat| j < num_chunks implies !#[trigger] chunk_finishes::<C, M, ND, CSR>(
            world,
            per_chunk,
            j,
        ) by {}
    }
    let c = chunk as nat;
    let done = c * per_chunk;
    assert(done == (chunk * per_chunk) as nat);
    lemma_finished_in_some_chunk::<C, M, ND, CSR>(world, per_chunk, c);
    law_chunks_are_one_run::<C, M, ND, CSR>(world, per_chunk, c);
    run::lemma_run_prefix::<C, M, ND, CSR>(world, done, done + cycles as nat);
    run::law_runs_compose::<C, M, ND, CSR>(world, done, cycles as nat);
    run::law_runs_compose::<C, M, ND, CSR>(world, done, (cycles + 1) as nat);
    assert((done + cycles + 1) as nat == done + (cycles + 1) as nat);
    let here = run::run::<C, M, ND, CSR>(world, done);
    if here is Ok && !here->Ok_0.finished {
        assert forall|j: nat| j < c implies !#[trigger] chunk_finishes::<C, M, ND, CSR>(
            world,
            per_chunk,
            j,
        ) by {}
    }
}

/// A tracer is told of every chunk but the first when it begins, by the timestamp of its first
/// access: the length of a trace times the number of the chunk, plus four. In between it is told
/// all that the cycles of the chunk trace, in order.
pub proof fn law_tracer_is_told_of_chunks<
    C: MachineConfig,
    M: MemorySource,
    TR: ChunkTracer<C>,
    ND: NonDeterminismCSRSource<M>,
    CSR: DelegationCSRProcessor,
>(world: World<ND::Model, CSR::Model>, model: TR::Model, per_chunk: nat, k: nat)
    ensures
        chunk_model::<C, M, TR, ND, CSR>(world, model, per_chunk, 0) == model,
        ({
            let before = chunk_model::<C, M, TR, ND, CSR>(world, model, per_chunk, k);
            let events = run::run::<C, M, ND, CSR>(
                chunk_world::<C, M, ND, CSR>(world, per_chunk, k)->Ok_0,
                per_chunk,
            )->Ok_0.events;
            let opened = if k == 0 {
                before
            } else {
                TR::next_chunk(before, ((per_chunk + 1) * k + 4) as u64)
            };
            chunk_model::<C, M, TR, ND, CSR>(world, model, per_chunk, k + 1)
                == abstractions::observe_all::<C, TR>(opened, events)
        }),
{
    assert((k + 1 - 1) as nat == k);
    assert(first_timestamp(per_chunk as int + 1, k as int) == (per_chunk + 1) * k + 4);
}

} // verus!
