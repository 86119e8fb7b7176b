//! Delegation processors: none at all, and the pair of BLAKE2s and 256-bit arithmetic.
use crate::simulator::abstractions::{
    Cpu, DelegationCSRProcessor, DelegationEffect, MemorySource, NonDeterminismCSRSource, Tracer,
};
use crate::simulator::config::{
    MachineConfig, BLAKE2_ROUND_FUNCTION_WITH_EXTENDED_CONTROL_ACCESS_ID,
    U256_OPS_WITH_CONTROL_ACCESS_ID,
};
use crate::simulator::state::RiscV32StateForUnrolledProver;
use vstd::prelude::*;

verus! {

/// The processor of a machine without delegations: it refuses every request.
#[derive(Clone, Copy, Debug)]
pub struct NoExtraCSRs;

impl DelegationCSRProcessor for NoExtraCSRs {
    type Model = ();

    open spec fn model(&self) -> () {
        ()
    }

    open spec fn effect(
        model: (),
        csr: u16,
        cpu: Cpu,
        words: Map<u64, u32>,
        writable: Set<u64>,
    ) -> Option<DelegationEffect<()>> {
        None
    }

    proof fn lemma_effect_is_confined(
        model: (),
        csr: u16,
        cpu: Cpu,
        words: Map<u64, u32>,
        writable: Set<u64>,
    ) {
    }

    fn accepts<M: MemorySource, C: MachineConfig>(
        &self,
        state: &RiscV32StateForUnrolledProver<C>,
        csr_index: u16,
        memory_source: &M,
    ) -> (r: bool) {
        false
    }

    fn process_write<
        M: MemorySource,
        TR: Tracer<C>,
        ND: NonDeterminismCSRSource<M>,
        C: MachineConfig,
    >(
        &mut self,
        state: &mut RiscV32StateForUnrolledProver<C>,
        csr_index: u16,
        memory_source: &mut M,
        non_determinism_source: &mut ND,
        tracer: &mut TR,
    ) {
    }
}

/// The processor of a machine with both delegations. A request goes by its CSR to the processor
/// of the BLAKE2s round function or to that of 256-bit arithmetic, and any other is refused.
#[derive(Debug)]
pub struct DelegationsCSRProcessor<B, U> {
    pub blake2_round_function: B,
    pub u256_ops: U,
}

impl<B: DelegationCSRProcessor, U: DelegationCSRProcessor> DelegationCSRProcessor for DelegationsCSRProcessor<
    B,
    U,
> {
    type Model = (B::Model, U::Model);

    open spec fn model(&self) -> (B::Model, U::Model) {
        (self.blake2_round_function.model(), self.u256_ops.model())
    }

    open spec fn effect(
        model: (B::Model, U::Model),
        csr: u16,
        cpu: Cpu,
        words: Map<u64, u32>,
        writable: Set<u64>,
    ) -> Option<DelegationEffect<(B::Model, U::Model)>> {
        if csr == BLAKE2_ROUND_FUNCTION_WITH_EXTENDED_CONTROL_ACCESS_ID {
            match B::effect(model.0, csr, cpu, words, writable) {
                None => None,
                Some(e) => Some(
                    DelegationEffect {
                        cpu: e.cpu,
                        words: e.words,
                        events: e.events,
                        processor: (e.processor, model.1),
                    },
                ),
            }
        } else if csr == U256_OPS_WITH_CONTROL_ACCESS_ID {
            match U::effect(model.1, csr, cpu, words, writable) {
                None => None,
                Some(e) => Some(
                    DelegationEffect {
                        cpu: e.cpu,
                        words: e.words,
                        events: e.events,
                        processor: (model.0, e.processor),
                    },
                ),
            }
        } else {
            None
        }
    }

    proof fn lemma_effect_is_confined(
        model: (B::Model, U::Model),
        csr: u16,
        cpu: Cpu,
        words: Map<u64, u32>,
        writable: Set<u64>,
    ) {
        if csr == BLAKE2_ROUND_FUNCTION_WITH_EXTENDED_CONTROL_ACCESS_ID {
            B::lemma_effect_is_confined(model.0, csr, cpu, words, writable);
        } else {
            U::lemma_effect_is_confined(model.1, csr, cpu, words, writable);
        }
    }

    fn accepts<M: MemorySource, C: MachineConfig>(
        &self,
        state: &RiscV32StateForUnrolledProver<C>,
        csr_index: u16,
        memory_source: &M,
    ) -> (r: bool) {
        if csr_index as u32 == BLAKE2_ROUND_FUNCTION_WITH_EXTENDED_CONTROL_ACCESS_ID {
            self.blake2_round_function.accepts(state, csr_index, memory_source)
        } else if csr_index as u32 == U256_OPS_WITH_CONTROL_ACCESS_ID {
            self.u256_ops.accepts(state, csr_index, memory_source)
        } else {
            false
        }
    }

    fn process_write<
        M: MemorySource,
        TR: Tracer<C>,
        ND: NonDeterminismCSRSource<M>,
        C: MachineConfig,
    >(
        &mut self,
        state: &mut RiscV32StateForUnrolledProver<C>,
        csr_index: u16,
        memory_source: &mut M,
        non_determinism_source: &mut ND,
        tracer: &mut TR,
    ) {
        if csr_index as u32 == BLAKE2_ROUND_FUNCTION_WITH_EXTENDED_CONTROL_ACCESS_ID {
            self.blake2_round_function.process_write(
                state,
                csr_index,
                memory_source,
                non_determinism_source,
                tracer,
            );
        } else {
            self.u256_ops.process_write(
                state,
                csr_index,
                memory_source,
                non_determinism_source,
                tracer,
            );
        }
    }
}

/// A machine without delegations refuses every request.
pub proof fn law_no_delegations(csr: u16, cpu: Cpu, words: Map<u64, u32>, writable: Set<u64>)
    ensures
        NoExtraCSRs::effect((), csr, cpu, words, writable) is None,
{
}

/// A request through CSR 1991 is one to the first processor, one through CSR 1994 is one to the
/// second; the other one is left as it is, and any other request is refused.
pub proof fn law_requests_go_by_their_csr<B: DelegationCSRProcessor, U: DelegationCSRProcessor>(
    blake2: B::Model,
    u256: U::Model,
    csr: u16,
    cpu: Cpu,
    words: Map<u64, u32>,
    writable: Set<u64>,
)
    ensures
        ({
            let r = DelegationsCSRProcessor::<B, U>::effect(
                (blake2, u256),
                csr,
                cpu,
                words,
                writable,
            );
            let b = B::effect(blake2, csr, cpu, words, writable);
            let u = U::effect(u256, csr, cpu, words, writable);
            &&& csr == 1991 ==> (r is Some <==> b is Some)
            &&& csr == 1991 && r is Some ==> {
                &&& r->0.cpu == b->0.cpu
                &&& r->0.words == b->0.words
                &&& r->0.events == b->0.events
                &&& r->0.processor == (b->0.processor, u256)
            }
            &&& csr == 1994 ==> (r is Some <==> u is Some)
            &&& csr == 1994 && r is Some ==> {
                &&& r->0.cpu == u->0.cpu
                &&& r->0.words == u->0.words
                &&& r->0.events == u->0.events
                &&& r->0.processor == (blake2, u->0.processor)
            }
            &&& csr != 1991 && csr != 1994 ==> r is None
        }),
{
}

} // verus!
