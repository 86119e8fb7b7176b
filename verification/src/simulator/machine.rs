//! A machine together with the parties that it talks to.
use crate::simulator::abstractions;
use crate::simulator::abstractions::{
    Cpu, DelegationCSRProcessor, MemorySource, NonDeterminismCSRSource, Tracer,
};
use crate::simulator::config::MachineConfig;
use crate::simulator::state;
use crate::simulator::state::{RiscV32ObservableState, RiscV32StateForUnrolledProver, World};
use vstd::prelude::*;

verus! {

/// Where a program starts.
#[derive(Clone, Copy, Debug)]
pub struct SimulatorConfig {
    pub entry_point: u32,
}

/// A machine that unrolls a program, with its memory, tracer, oracle and delegation processor.
pub struct Riscv32MachineProverUnrolled<
    MS: MemorySource,
    TR: Tracer<C>,
    ND: NonDeterminismCSRSource<MS>,
    CSR: DelegationCSRProcessor,
    C: MachineConfig,
> {
    pub state: RiscV32StateForUnrolledProver<C>,
    pub memory_source: MS,
    pub memory_tracer: TR,
    pub non_determinism_source: ND,
    pub csr_processor: CSR,
}

impl<MS, TR, ND, CSR, C> Riscv32MachineProverUnrolled<MS, TR, ND, CSR, C> where
    MS: MemorySource,
    TR: Tracer<C>,
    ND: NonDeterminismCSRSource<MS>,
    CSR: DelegationCSRProcessor,
    C: MachineConfig,
 {
    /// Everything in the machine that a cycle changes, except for its tracer.
    pub open spec fn world(&self) -> World<ND::Model, CSR::Model> {
        state::world_of(
            self.state,
            self.memory_source,
            self.non_determinism_source,
            self.csr_processor,
        )
    }

    /// A machine about to execute its first instruction.
    pub fn new(
        config: &SimulatorConfig,
        memory_source: MS,
        memory_tracer: TR,
        non_determinism_source: ND,
        csr_processor: CSR,
    ) -> (r: Self)
        ensures
            r.state@ == (Cpu { regs: Seq::new(32, |i: int| 0u32), pc: config.entry_point }),
            r.memory_source == memory_source,
            r.memory_tracer == memory_tracer,
            r.non_determinism_source == non_determinism_source,
            r.csr_processor == csr_processor,
    {
        let state = RiscV32StateForUnrolledProver::initial(config.entry_point);
        Riscv32MachineProverUnrolled {
            state,
            memory_source,
            memory_tracer,
            non_determinism_source,
            csr_processor,
        }
    }

    /// Runs one cycle.
    pub fn cycle(&mut self)
        requires
            state::step::<C, MS, ND, CSR>(old(self).world()) is Ok,
        ensures
            final(self).world() == state::step::<C, MS, ND, CSR>(old(self).world())->Ok_0.world,
            final(self).memory_tracer.model() == abstractions::observe_all::<C, TR>(
                old(self).memory_tracer.model(),
                state::step::<C, MS, ND, CSR>(old(self).world())->Ok_0.events,
            ),
    {
        self.state.cycle(
            &mut self.memory_source,
            &mut self.memory_tracer,
            &mut self.non_determinism_source,
            &mut self.csr_processor,
        );
    }

    /// The register file and the program counter.
    pub fn state(&self) -> (r: &RiscV32ObservableState)
        ensures
            *r == self.state.observable,
    {
        &self.state.observable
    }
}

} // verus!
