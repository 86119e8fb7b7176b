//! Runs of many cycles, and what holds of every run.
use crate::bits;
use crate::simulator::abstractions;
use crate::simulator::abstractions::{
    DelegationCSRProcessor, MemorySource, NonDeterminismCSRSource, TraceEvent, Tracer,
};
use crate::simulator::config::MachineConfig;
use crate::simulator::instruction;
use crate::simulator::isa;
use crate::simulator::isa::{Action, CycleFault};
use crate::simulator::memory;
use crate::simulator::state;
use crate::simulator::state::{RiscV32StateForUnrolledProver, World};
use vstd::prelude::*;

verus! {

/// The outcome of a run: the world after it, what was traced, and whether some cycle left the
/// program counter in place.
#[verifier::ext_equal]
pub struct Run<N, P> {
    pub world: World<N, P>,
    pub events: Seq<TraceEvent>,
    pub finished: bool,
}

/// `first` followed by one more cycle.
#[verifier::opaque]
pub open spec fn run_one_more<
    C: MachineConfig,
    M: MemorySource,
    ND: NonDeterminismCSRSource<M>,
    CSR: DelegationCSRProcessor,
>(first: Run<ND::Model, CSR::Model>) -> Result<Run<ND::Model, CSR::Model>, CycleFault> {
    match state::step::<C, M, ND, CSR>(first.world) {
        Err(fault) => Err(fault),
        Ok(e) => Ok(
            Run {
                world: e.world,
                events: first.events + e.events,
                finished: first.finished || e.world.cpu.pc == first.world.cpu.pc,
            },
        ),
    }
}

/// A run of `cycles` cycles; the first fault ends it.
pub open spec fn run<
    C: MachineConfig,
    M: MemorySource,
    ND: NonDeterminismCSRSource<M>,
    CSR: DelegationCSRProcessor,
>(world: World<ND::Model, CSR::Model>, cycles: nat) -> Result<
    Run<ND::Model, CSR::Model>,
    CycleFault,
>
    decreases cycles,
{
    if cycles == 0 {
        Ok(Run { world, events: seq![], finished: false })
    } else {
        match run::<C, M, ND, CSR>(world, (cycles - 1) as nat) {
            Err(fault) => Err(fault),
            Ok(first) => run_one_more::<C, M, ND, CSR>(first),
        }
    }
}

/// A run that gets through all its cycles gets through any part of them.
pub proof fn lemma_run_prefix<
    C: MachineConfig,
    M: MemorySource,
    ND: NonDeterminismCSRSource<M>,
    CSR: DelegationCSRProcessor,
>(world: World<ND::Model, CSR::Model>, part: nat, whole: nat)
    requires
        part <= whole,
    ensures
        run::<C, M, ND, CSR>(world, whole) is Ok ==> run::<C, M, ND, CSR>(world, part) is Ok,
        run::<C, M, ND, CSR>(world, part) is Err ==> run::<C, M, ND, CSR>(world, whole)->Err_0
            == run::<C, M, ND, CSR>(world, part)->Err_0,
    decreases whole - part,
{
    if part < whole {
        lemma_run_prefix::<C, M, ND, CSR>(world, part, (whole - 1) as nat);
    }
}

impl<Config: MachineConfig> RiscV32StateForUnrolledProver<Config> {
    /// Adds one more cycle to the run `first`.
    fn try_one_more<
        M: MemorySource,
        TR: Tracer<Config>,
        ND: NonDeterminismCSRSource<M>,
        CSR: DelegationCSRProcessor,
    >(
        &mut self,
        memory_source: &mut M,
        tracer: &mut TR,
        non_determinism_source: &mut ND,
        csr_processor: &mut CSR,
        Ghost(first): Ghost<Run<ND::Model, CSR::Model>>,
        Ghost(start): Ghost<TR::Model>,
    ) -> (r: Result<bool, CycleFault>)
        requires
            first.world == state::world_of(
                *old(self),
                *old(memory_source),
                *old(non_determinism_source),
                *old(csr_processor),
            ),
            old(tracer).model() == abstractions::observe_all::<Config, TR>(start, first.events),
        ensures
            ({
                let after = state::world_of(
                    *final(self),
                    *final(memory_source),
                    *final(non_determinism_source),
                    *final(csr_processor),
                );
                match run_one_more::<Config, M, ND, CSR>(first) {
                    Ok(next) => {
                        &&& r is Ok
                        &&& next.finished == (first.finished || r->Ok_0)
                        &&& next.world == after
                        &&& final(tracer).model() == abstractions::observe_all::<Config, TR>(
                            start,
                            next.events,
                        )
                    },
                    Err(fault) => {
                        &&& r == Err::<bool, CycleFault>(fault)
                        &&& first.world == after
                        &&& final(tracer).model() == old(tracer).model()
                    },
                }
            }),
    {
        proof {
            reveal(run_one_more);
            match state::step::<Config, M, ND, CSR>(first.world) {
                Ok(e) => {
                    abstractions::lemma_observe_concat::<Config, TR>(
                        start,
                        first.events,
                        e.events,
                    );
                },
                Err(_) => {},
            }
        }
        self.try_cycle(memory_source, tracer, non_determinism_source, csr_processor)
    }

    /// Runs cycles until `num_cycles` are done or one of them faults. In the latter case the
    /// number of completed cycles comes with the fault.
    pub fn try_run_cycles<
        M: MemorySource,
        TR: Tracer<Config>,
        ND: NonDeterminismCSRSource<M>,
        CSR: DelegationCSRProcessor,
    >(
        &mut self,
        memory_source: &mut M,
        tracer: &mut TR,
        non_determinism_source: &mut ND,
        csr_processor: &mut CSR,
        num_cycles: usize,
    ) -> (r: Result<bool, (usize, CycleFault)>)
        ensures
            ({
                let before = state::world_of(
                    *old(self),
                    *old(memory_source),
                    *old(non_determinism_source),
                    *old(csr_processor),
                );
                let after = state::world_of(
                    *final(self),
                    *final(memory_source),
                    *final(non_determinism_source),
                    *final(csr_processor),
                );
                match r {
                    Ok(finished) => {
                        &&& run::<Config, M, ND, CSR>(before, num_cycles as nat) is Ok
                        &&& run::<Config, M, ND, CSR>(before, num_cycles as nat)->Ok_0.world
                            == after
                        &&& run::<Config, M, ND, CSR>(before, num_cycles as nat)->Ok_0.finished
                            == finished
                        &&& final(tracer).model() == abstractions::observe_all::<Config, TR>(
                            old(tracer).model(),
                            run::<Config, M, ND, CSR>(before, num_cycles as nat)->Ok_0.events,
                        )
                    },
                    Err((done, fault)) => {
                        &&& done < num_cycles
                        &&& run::<Config, M, ND, CSR>(before, num_cycles as nat)
                            == Err::<Run<ND::Model, CSR::Model>, CycleFault>(fault)
                        &&& run::<Config, M, ND, CSR>(before, done as nat) is Ok
                        &&& run::<Config, M, ND, CSR>(before, done as nat)->Ok_0.world == after
                        &&& run::<Config, M, ND, CSR>(before, (done + 1) as nat)
                            == Err::<Run<ND::Model, CSR::Model>, CycleFault>(fault)
                        &&& final(tracer).model() == abstractions::observe_all::<Config, TR>(
                            old(tracer).model(),
                            run::<Config, M, ND, CSR>(before, done as nat)->Ok_0.events,
                        )
                    },
                }
            }),
    {
        let ghost before = state::world_of(
            *self,
            *memory_source,
            *non_determinism_source,
            *csr_processor,
        );
        let ghost start = tracer.model();
        let mut finished_execution = false;
        let mut i: usize = 0;
        while i < num_cycles
            invariant
                i <= num_cycles,
                start == old(tracer).model(),
                before == state::world_of(
                    *old(self),
                    *old(memory_source),
                    *old(non_determinism_source),
                    *old(csr_processor),
                ),
                run::<Config, M, ND, CSR>(before, i as nat) is Ok,
                run::<Config, M, ND, CSR>(before, i as nat)->Ok_0.world == state::world_of(
                    *self,
                    *memory_source,
                    *non_determinism_source,
                    *csr_processor,
                ),
                run::<Config, M, ND, CSR>(before, i as nat)->Ok_0.finished == finished_execution,
                tracer.model() == abstractions::observe_all::<Config, TR>(
                    start,
                    run::<Config, M, ND, CSR>(before, i as nat)->Ok_0.events,
                ),
            decreases num_cycles - i,
        {
            let ghost so_far = run::<Config, M, ND, CSR>(before, i as nat)->Ok_0;
            match self.try_one_more(
                memory_source,
                tracer,
                non_determinism_source,
                csr_processor,
                Ghost(so_far),
                Ghost(start),
            ) {
                Ok(finished) => {
                    if finished {
                        finished_execution = true;
                    }
                },
                Err(fault) => {
                    proof {
                        lemma_run_prefix::<Config, M, ND, CSR>(
                            before,
                            (i + 1) as nat,
                            num_cycles as nat,
                        );
                    }
                    return Err((i, fault));
                },
            }
            i = i + 1;
        }
        Ok(finished_execution)
    }

    /// Runs `num_cycles` cycles and tells whether some cycle left the program counter in place.
    /// The remaining cycles are run all the same, so that every run has its full length.
    pub fn run_cycles<
        M: MemorySource,
        TR: Tracer<Config>,
        ND: NonDeterminismCSRSource<M>,
        CSR: DelegationCSRProcessor,
    >(
        &mut self,
        memory_source: &mut M,
        tracer: &mut TR,
        non_determinism_source: &mut ND,
        csr_processor: &mut CSR,
        num_cycles: usize,
    ) -> (r: bool)
        requires
            run::<Config, M, ND, CSR>(
                state::world_of(
                    *old(self),
                    *old(memory_source),
                    *old(non_determinism_source),
                    *old(csr_processor),
                ),
                num_cycles as nat,
            ) is Ok,
        ensures
            ({
                let done = run::<Config, M, ND, CSR>(
                    state::world_of(
                        *old(self),
                        *old(memory_source),
                        *old(non_determinism_source),
                        *old(csr_processor),
                    ),
                    num_cycles as nat,
                )->Ok_0;
                &&& r == done.finished
                &&& state::world_of(
                    *final(self),
                    *final(memory_source),
                    *final(non_determinism_source),
                    *final(csr_processor),
                ) == done.world
                &&& final(tracer).model() == abstractions::observe_all::<Config, TR>(
                    old(tracer).model(),
                    done.events,
                )
            }),
    {
        match self.try_run_cycles(
            memory_source,
            tracer,
            non_determinism_source,
            csr_processor,
            num_cycles,
        ) {
            Ok(finished) => finished,
            Err(_) => false,
        }
    }
}

/// Running `first` cycles and then `second` more is running `first + second` cycles.
pub proof fn law_runs_compose<
    C: MachineConfig,
    M: MemorySource,
    ND: NonDeterminismCSRSource<M>,
    CSR: DelegationCSRProcessor,
>(world: World<ND::Model, CSR::Model>, first: nat, second: nat)
    ensures
        run::<C, M, ND, CSR>(world, first + second) == match run::<C, M, ND, CSR>(world, first) {
            Err(fault) => Err::<Run<ND::Model, CSR::Model>, CycleFault>(fault),
            Ok(a) => match run::<C, M, ND, CSR>(a.world, second) {
                Err(fault) => Err::<Run<ND::Model, CSR::Model>, CycleFault>(fault),
                Ok(b) => Ok::<Run<ND::Model, CSR::Model>, CycleFault>(
                    Run {
                        world: b.world,
                        events: a.events + b.events,
                        finished: a.finished || b.finished,
                    },
                ),
            },
        },
    decreases second,
{
    let whole = run::<C, M, ND, CSR>(world, first + second);
    match run::<C, M, ND, CSR>(world, first) {
        Err(_) => {
            lemma_run_prefix::<C, M, ND, CSR>(world, first, first + second);
        },
        Ok(a) => {
            if second == 0 {
                assert(a.events + Seq::<TraceEvent>::empty() =~= a.events);
            } else {
                reveal(run_one_more);
                law_runs_compose::<C, M, ND, CSR>(world, first, (second - 1) as nat);
                assert((first + second - 1) as nat == first + (second - 1) as nat);
                match run::<C, M, ND, CSR>(a.world, (second - 1) as nat) {
                    Err(_) => {},
                    Ok(b) => {
                        match state::step::<C, M, ND, CSR>(b.world) {
                            Err(_) => {},
                            Ok(e) => {
                                assert(a.events + b.events + e.events =~= a.events + (b.events
                                    + e.events));
                            },
                        }
                    },
                }
            }
        },
    }
}

/// A register file of 32 words whose register zero holds zero.
pub open spec fn registers_ok<N, P>(world: World<N, P>) -> bool {
    &&& world.cpu.regs.len() == 32
    &&& world.cpu.regs[0] == 0
}

/// What a cycle can never touch: register zero, the set of addresses, the words that the program
/// may not write.
pub open spec fn is_confined<N, P>(before: World<N, P>, after: World<N, P>) -> bool {
    &&& registers_ok(after)
    &&& after.writable == before.writable
    &&& after.words.dom() == before.words.dom()
    &&& forall|a: u64|
        before.words.contains_key(a) && !before.writable.contains(a) ==> after.words[a]
            == #[trigger] before.words[a]
}

proof fn lemma_step_is_confined<
    C: MachineConfig,
    M: MemorySource,
    ND: NonDeterminismCSRSource<M>,
    CSR: DelegationCSRProcessor,
>(world: World<ND::Model, CSR::Model>)
    requires
        registers_ok(world),
        state::step::<C, M, ND, CSR>(world) is Ok,
    ensures
        is_confined(world, state::step::<C, M, ND, CSR>(world)->Ok_0.world),
{
    let w = world.words[world.cpu.pc as u64];
    let a = world.cpu.regs[instruction::rs1_field(w)];
    let b = state::second_operand(world.cpu, w);
    let action = isa::action_of::<C>(w, world.cpu.pc, a, b)->Ok_0;
    let advanced = world.cpu.with_pc(bits::wrap32(world.cpu.pc + 4));
    match action {
        Action::Csr { number } => {
            if CSR::effect(
                world.processor,
                number as u16,
                advanced,
                world.words,
                world.writable,
            ) is Some {
                CSR::lemma_effect_is_confined(
                    world.processor,
                    number as u16,
                    advanced,
                    world.words,
                    world.writable,
                );
            }
        },
        Action::Store { address, .. } => {
            assert(world.words.insert(memory::word_address(address as u64), 0).dom()
                =~= world.words.dom());
            let after = state::step::<C, M, ND, CSR>(world)->Ok_0.world;
            assert(after.words.dom() =~= world.words.dom());
        },
        _ => {},
    }
}

/// Whatever a program does, register zero holds zero, and the words that it may not write, among
/// them the program itself, stay as they were.
pub proof fn law_runs_are_confined<
    C: MachineConfig,
    M: MemorySource,
    ND: NonDeterminismCSRSource<M>,
    CSR: DelegationCSRProcessor,
>(world: World<ND::Model, CSR::Model>, cycles: nat)
    requires
        registers_ok(world),
        run::<C, M, ND, CSR>(world, cycles) is Ok,
    ensures
        is_confined(world, run::<C, M, ND, CSR>(world, cycles)->Ok_0.world),
    decreases cycles,
{
    if cycles > 0 {
        reveal(run_one_more);
        lemma_run_prefix::<C, M, ND, CSR>(world, (cycles - 1) as nat, cycles);
        law_runs_are_confined::<C, M, ND, CSR>(world, (cycles - 1) as nat);
        lemma_step_is_confined::<C, M, ND, CSR>(
            run::<C, M, ND, CSR>(world, (cycles - 1) as nat)->Ok_0.world,
        );
    }
}

/// A run is made of its cycles: without cycles nothing happens; one cycle more goes on from where the
/// run was, adds its trace, and counts as the end of the program if and only if it leaves the
/// program counter in place; and the first cycle that cannot be executed ends the run with its
/// fault.
pub proof fn law_run_is_made_of_cycles<
    C: MachineConfig,
    M: MemorySource,
    ND: NonDeterminismCSRSource<M>,
    CSR: DelegationCSRProcessor,
>(world: World<ND::Model, CSR::Model>, n: nat)
    ensures
        ({
            let none = run::<C, M, ND, CSR>(world, 0);
            none is Ok && none->Ok_0.world == world && none->Ok_0.events.len() == 0
                && !none->Ok_0.finished
        }),
        ({
            let first = run::<C, M, ND, CSR>(world, n);
            let more = run::<C, M, ND, CSR>(world, n + 1);
            match first {
                Err(_) => more == first,
                Ok(a) => match state::step::<C, M, ND, CSR>(a.world) {
                    Err(fault) => more == Err::<Run<ND::Model, CSR::Model>, CycleFault>(fault),
                    Ok(e) => {
                        &&& more is Ok
                        &&& more->Ok_0.world == e.world
                        &&& more->Ok_0.events == a.events + e.events
                        &&& more->Ok_0.finished <==> a.finished || e.world.cpu.pc == a.world.cpu.pc
                    },
                },
            }
        }),
{
    reveal(run_one_more);
    assert((n + 1 - 1) as nat == n);
}

} // verus!
