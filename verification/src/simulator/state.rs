//! The machine state and the cycle that advances it.
use crate::bits;
use crate::simulator::abstractions;
use crate::simulator::abstractions::{
    Cpu, DelegationCSRProcessor, MemorySource, NonDeterminismCSRSource, TraceEvent, Tracer,
};
use crate::simulator::config::{MachineConfig, MARKER_CSR, NON_DETERMINISM_CSR};
use crate::simulator::instruction;
use crate::simulator::instruction::{
    get_formal_rs1_bits, get_formal_rs2_bits, get_opcode_bits, get_rd_bits, OPCODE_LOAD,
};
use crate::simulator::isa;
use crate::simulator::isa::{execute, Action, CycleFault};
use crate::simulator::memory;
use crate::simulator::memory::{mem_read, mem_write};
use std::marker::PhantomData;
use vstd::prelude::*;

verus! {

pub const NUM_REGISTERS: usize = 32;

/// The register file and the program counter.
#[derive(Clone, Copy, PartialEq, Eq, Debug, Hash)]
pub struct RiscV32ObservableState {
    pub registers: [u32; 32],
    pub pc: u32,
}

/// The machine state of a program that is unrolled cycle by cycle.
pub struct RiscV32StateForUnrolledProver<Config: MachineConfig> {
    pub observable: RiscV32ObservableState,
    pub _marker: PhantomData<Config>,
}

impl<Config: MachineConfig> View for RiscV32StateForUnrolledProver<Config> {
    type V = Cpu;

    open spec fn view(&self) -> Cpu {
        Cpu { regs: self.observable.registers@, pc: self.observable.pc }
    }
}

impl<Config: MachineConfig> RiscV32StateForUnrolledProver<Config> {
    /// All registers zero, about to execute the instruction at `initial_pc`.
    pub fn initial(initial_pc: u32) -> (r: Self)
        ensures
            r@ == (Cpu { regs: Seq::new(32, |i: int| 0u32), pc: initial_pc }),
    {
        let registers = [0u32;32];
        assert(registers@ =~= Seq::new(32, |i: int| 0u32));
        RiscV32StateForUnrolledProver {
            observable: RiscV32ObservableState { registers, pc: initial_pc },
            _marker: PhantomData,
        }
    }

    #[must_use]
    pub fn get_register(&self, reg_idx: u32) -> (r: u32)
        requires
            reg_idx < 32,
        ensures
            r == self@.regs[reg_idx as int],
    {
        self.observable.registers[reg_idx as usize]
    }

    /// Writes `value` to a register, except that register zero stays zero, and returns what the
    /// register held before.
    pub fn set_register(&mut self, reg_idx: u32, value: u32) -> (r: u32)
        requires
            reg_idx < 32,
        ensures
            r == old(self)@.regs[reg_idx as int],
            final(self)@ == old(self)@.with_register(reg_idx as int, value),
    {
        let existing = self.observable.registers[reg_idx as usize];
        let written: u32 = if reg_idx == 0 {
            0
        } else {
            value
        };
        self.observable.registers[reg_idx as usize] = written;
        existing
    }
}

/// Everything that a cycle changes, except for what the tracer remembers.
#[verifier::ext_equal]
pub struct World<N, P> {
    pub cpu: Cpu,
    pub words: Map<u64, u32>,
    pub writable: Set<u64>,
    pub oracle: N,
    pub processor: P,
}

impl<N, P> World<N, P> {
    pub open spec fn with_cpu(self, cpu: Cpu) -> World<N, P> {
        World { cpu, ..self }
    }
}

/// What the instruction-specific part of a cycle does: the world after it and what is traced.
#[verifier::ext_equal]
pub struct Effect<N, P> {
    pub world: World<N, P>,
    pub events: Seq<TraceEvent>,
}

/// Writes the destination register and traces the write.
pub open spec fn write_destination<N, P>(
    world: World<N, P>,
    rd: int,
    value: u32,
    before: Seq<TraceEvent>,
) -> Effect<N, P> {
    Effect {
        world: world.with_cpu(world.cpu.with_register(rd, value)),
        events: before.push(
            TraceEvent::RdWrite { index: rd as u32, old_value: world.cpu.regs[rd], value },
        ),
    }
}

/// An exchange with the oracle: a read, unless it is mocked, then a write, unless it is ignored.
pub open spec fn oracle_effect<M: MemorySource, ND: NonDeterminismCSRSource<M>, P>(
    world: World<ND::Model, P>,
    rd: int,
    rs1: int,
    rs1_value: u32,
) -> Result<Effect<ND::Model, P>, CycleFault> {
    let mocked = ND::SHOULD_MOCK_READS_BEFORE_WRITES && rd == 0;
    let ignored = ND::SHOULD_IGNORE_WRITES_AFTER_READS && rs1 == 0;
    let word = if mocked {
        Some(0u32)
    } else {
        ND::next_word(world.oracle)
    };
    match word {
        None => Err(CycleFault::OracleRead),
        Some(value) => {
            let after_read = if mocked {
                world.oracle
            } else {
                ND::after_read(world.oracle)
            };
            let after_write = if ignored {
                after_read
            } else {
                ND::after_write(after_read, world.words, rs1_value)
            };
            Ok(
                write_destination(
                    World { oracle: after_write, ..world },
                    rd,
                    value,
                    seq![
                        TraceEvent::NonDeterminismRead { value },
                        TraceEvent::NonDeterminismWrite { value: rs1_value },
                    ],
                ),
            )
        },
    }
}

/// A delegation request, which always answers zero.
pub open spec fn delegation_effect<C: MachineConfig, CSR: DelegationCSRProcessor, N>(
    world: World<N, CSR::Model>,
    number: u32,
    rd: int,
) -> Result<Effect<N, CSR::Model>, CycleFault> {
    if !C::delegation_allowed(number) {
        Err(CycleFault::DelegationNotAllowed { csr: number })
    } else {
        match CSR::effect(
            world.processor,
            number as u16,
            world.cpu,
            world.words,
            world.writable,
        ) {
            None => Err(CycleFault::DelegationRefused { csr: number }),
            Some(e) => Ok(
                write_destination(
                    World {
                        cpu: e.cpu,
                        words: e.words,
                        writable: world.writable,
                        oracle: world.oracle,
                        processor: e.processor,
                    },
                    rd,
                    0,
                    e.events,
                ),
            ),
        }
    }
}

/// Carries out `action`, in a world whose program counter was already advanced by four.
pub open spec fn perform<
    C: MachineConfig,
    M: MemorySource,
    ND: NonDeterminismCSRSource<M>,
    CSR: DelegationCSRProcessor,
>(
    world: World<ND::Model, CSR::Model>,
    action: Action,
    rd: int,
    rs1: int,
    rs1_value: u32,
    rs2_value: u32,
) -> Result<Effect<ND::Model, CSR::Model>, CycleFault> {
    match action {
        Action::WriteRegister { value, next_pc } => Ok(
            write_destination(
                world.with_cpu(world.cpu.with_pc(next_pc)),
                rd,
                value,
                seq![],
            ),
        ),
        Action::Branch { next_pc } => Ok(
            Effect {
                world: world.with_cpu(world.cpu.with_pc(next_pc)),
                events: seq![
                    TraceEvent::RdWrite { index: 0, old_value: world.cpu.regs[0], value: 0 },
                ],
            },
        ),
        Action::Load { address, kind } => {
            let at = memory::word_address(address as u64);
            if !memory::is_aligned_access(address as u64, kind.length())
                || !world.words.contains_key(at) {
                Err(CycleFault::MemoryAccess { address })
            } else {
                let word = world.words[at];
                Ok(
                    write_destination(
                        world,
                        rd,
                        kind.extended(
                            memory::sub_word(word, (address % 4) as int, kind.length() as int),
                        ),
                        seq![TraceEvent::RamRead { address: at, value: word }],
                    ),
                )
            }
        },
        Action::Store { address, length } => {
            let at = memory::word_address(address as u64);
            if !memory::is_aligned_access(address as u64, length) || !world.words.contains_key(at)
                || !world.writable.contains(at) {
                Err(CycleFault::MemoryAccess { address })
            } else {
                let old_value = world.words[at];
                let value = memory::replace_sub_word(
                    old_value,
                    (address % 4) as int,
                    length as int,
                    rs2_value,
                );
                Ok(
                    Effect {
                        world: World { words: world.words.insert(at, value), ..world },
                        events: seq![TraceEvent::RamReadWrite { address: at, old_value, value }],
                    },
                )
            }
        },
        Action::Csr { number } => if number == NON_DETERMINISM_CSR {
            oracle_effect::<M, ND, CSR::Model>(world, rd, rs1, rs1_value)
        } else if number == MARKER_CSR {
            Ok(write_destination(world, rd, 0, seq![]))
        } else {
            delegation_effect::<C, CSR, ND::Model>(world, number, rd)
        },
        Action::Nothing => Ok(Effect { world, events: seq![] }),
    }
}

/// What is traced before the instruction is looked at: the state and the source registers. A load
/// leaves its second slot to the memory.
pub open spec fn opening_events(cpu: Cpu, w: u32) -> Seq<TraceEvent> {
    let rs1 = instruction::rs1_field(w);
    let rs2 = instruction::rs2_field(w);
    let start = seq![
        TraceEvent::CycleStart { cpu },
        TraceEvent::Rs1Read { index: rs1 as u32, value: cpu.regs[rs1] },
    ];
    if instruction::opcode_field(w) == OPCODE_LOAD {
        start
    } else {
        start.push(TraceEvent::Rs2Read { index: rs2 as u32, value: cpu.regs[rs2] })
    }
}

/// The value of the second source register; loads have none.
pub open spec fn second_operand(cpu: Cpu, w: u32) -> u32 {
    if instruction::opcode_field(w) == OPCODE_LOAD {
        0
    } else {
        cpu.regs[instruction::rs2_field(w)]
    }
}

/// The whole of one cycle that executes the instruction `w`.
pub open spec fn step_instruction<
    C: MachineConfig,
    M: MemorySource,
    ND: NonDeterminismCSRSource<M>,
    CSR: DelegationCSRProcessor,
>(world: World<ND::Model, CSR::Model>, w: u32) -> Result<
    Effect<ND::Model, CSR::Model>,
    CycleFault,
> {
    let cpu = world.cpu;
    let rs1 = instruction::rs1_field(w);
    let a = cpu.regs[rs1];
    let b = second_operand(cpu, w);
    match isa::action_of::<C>(w, cpu.pc, a, b) {
        Err(fault) => Err(fault),
        Ok(action) => match perform::<C, M, ND, CSR>(
            world.with_cpu(cpu.with_pc(bits::wrap32(cpu.pc + 4))),
            action,
            instruction::rd_field(w),
            rs1,
            a,
            b,
        ) {
            Err(fault) => Err(fault),
            Ok(e) => Ok(
                Effect {
                    world: e.world,
                    events: (opening_events(cpu, w) + e.events).push(
                        TraceEvent::CycleEnd { cpu: e.world.cpu },
                    ),
                },
            ),
        },
    }
}

/// One cycle: fetch, then execute.
pub open spec fn step<
    C: MachineConfig,
    M: MemorySource,
    ND: NonDeterminismCSRSource<M>,
    CSR: DelegationCSRProcessor,
>(world: World<ND::Model, CSR::Model>) -> Result<Effect<ND::Model, CSR::Model>, CycleFault> {
    let pc = world.cpu.pc;
    if pc % 4 != 0 || !world.words.contains_key(pc as u64) {
        Err(CycleFault::Fetch { pc })
    } else {
        step_instruction::<C, M, ND, CSR>(world, world.words[pc as u64])
    }
}

/// The world that the arguments of a cycle make up.
pub open spec fn world_of<
    C: MachineConfig,
    M: MemorySource,
    ND: NonDeterminismCSRSource<M>,
    CSR: DelegationCSRProcessor,
>(
    state: RiscV32StateForUnrolledProver<C>,
    memory_source: M,
    non_determinism_source: ND,
    csr_processor: CSR,
) -> World<ND::Model, CSR::Model> {
    World {
        cpu: state@,
        words: memory_source.words(),
        writable: memory_source.writable(),
        oracle: non_determinism_source.model(),
        processor: csr_processor.model(),
    }
}

impl<Config: MachineConfig> RiscV32StateForUnrolledProver<Config> {
    /// Reads the instruction at the program counter.
    fn decoder_step<M: MemorySource>(&self, memory_source: &M) -> (r: u32)
        requires
            memory_source.words().contains_key(self@.pc as u64),
        ensures
            r == memory_source.words()[self@.pc as u64],
    {
        memory_source.get(self.observable.pc as u64)
    }

    /// Decides whether `action` can be carried out in the state whose program counter is advanced
    /// by four, and changes nothing.
    fn examine<M: MemorySource, ND: NonDeterminismCSRSource<M>, CSR: DelegationCSRProcessor>(
        &self,
        action: Action,
        rd: u32,
        rs1: u32,
        rs1_value: u32,
        rs2_value: u32,
        memory_source: &M,
        non_determinism_source: &ND,
        csr_processor: &CSR,
    ) -> (r: Result<(), CycleFault>)
        ensures
            r == match perform::<Config, M, ND, CSR>(
                world_of(*self, *memory_source, *non_determinism_source, *csr_processor).with_cpu(
                    self@.with_pc(bits::wrap32(self@.pc + 4)),
                ),
                action,
                rd as int,
                rs1 as int,
                rs1_value,
                rs2_value,
            ) {
                Ok(_) => Ok::<(), CycleFault>(()),
                Err(fault) => Err::<(), CycleFault>(fault),
            },
    {
        match action {
            Action::Load { address, kind } => {
                if aligned(address as u64, kind.num_bytes()) && memory_source.can_read(
                    address as u64 - address as u64 % 4,
                ) {
                    Ok(())
                } else {
                    Err(CycleFault::MemoryAccess { address })
                }
            },
            Action::Store { address, length } => {
                if aligned(address as u64, length) && memory_source.can_write(
                    address as u64 - address as u64 % 4,
                ) {
                    Ok(())
                } else {
                    Err(CycleFault::MemoryAccess { address })
                }
            },
            Action::Csr { number } => {
                if number == NON_DETERMINISM_CSR {
                    if ND::SHOULD_MOCK_READS_BEFORE_WRITES && rd == 0 {
                        Ok(())
                    } else if non_determinism_source.has_word() {
                        Ok(())
                    } else {
                        Err(CycleFault::OracleRead)
                    }
                } else if number == MARKER_CSR {
                    Ok(())
                } else if !Config::allows_delegation_csr(number) {
                    Err(CycleFault::DelegationNotAllowed { csr: number })
                } else {
                    let advanced: RiscV32StateForUnrolledProver<Config> =
                        RiscV32StateForUnrolledProver {
                        observable: RiscV32ObservableState {
                            registers: self.observable.registers,
                            pc: self.observable.pc.wrapping_add(4),
                        },
                        _marker: PhantomData,
                    };
                    assert(advanced@ == self@.with_pc(bits::wrap32(self@.pc + 4)));
                    if csr_processor.accepts(&advanced, number as u16, memory_source) {
                        Ok(())
                    } else {
                        Err(CycleFault::DelegationRefused { csr: number })
                    }
                }
            },
            _ => Ok(()),
        }
    }

    /// Carries out `action`.
    fn commit<
        M: MemorySource,
        TR: Tracer<Config>,
        ND: NonDeterminismCSRSource<M>,
        CSR: DelegationCSRProcessor,
    >(
        &mut self,
        action: Action,
        rd: u32,
        rs1: u32,
        rs1_value: u32,
        rs2_value: u32,
        memory_source: &mut M,
        tracer: &mut TR,
        non_determinism_source: &mut ND,
        csr_processor: &mut CSR,
    )
        requires
            rd < 32,
            perform::<Config, M, ND, CSR>(
                world_of(
                    *old(self),
                    *old(memory_source),
                    *old(non_determinism_source),
                    *old(csr_processor),
                ),
                action,
                rd as int,
                rs1 as int,
                rs1_value,
                rs2_value,
            ) is Ok,
        ensures
            ({
                let e = perform::<Config, M, ND, CSR>(
                    world_of(
                        *old(self),
                        *old(memory_source),
                        *old(non_determinism_source),
                        *old(csr_processor),
                    ),
                    action,
                    rd as int,
                    rs1 as int,
                    rs1_value,
                    rs2_value,
                )->Ok_0;
                &&& world_of(
                    *final(self),
                    *final(memory_source),
                    *final(non_determinism_source),
                    *final(csr_processor),
                ) == e.world
                &&& final(tracer).model() == abstractions::observe_all::<Config, TR>(
                    old(tracer).model(),
                    e.events,
                )
            }),
    {
        let ghost mut seen: Seq<TraceEvent> = seq![];
        match action {
            Action::WriteRegister { value, next_pc } => {
                self.observable.pc = next_pc;
                assert(self@ == old(self)@.with_pc(next_pc));
                self.finish_write(rd, value, tracer, Ghost(old(tracer).model()), Ghost(seen));
            },
            Action::Branch { next_pc } => {
                self.observable.pc = next_pc;
                assert(self@ == old(self)@.with_pc(next_pc));
                let existing = self.get_register(0);
                tracer.trace_rd_write(0, existing, 0);
                proof {
                    abstractions::lemma_observe_push::<Config, TR>(
                        old(tracer).model(),
                        seen,
                        TraceEvent::RdWrite { index: 0, old_value: existing, value: 0 },
                    );
                }
            },
            Action::Load { address, kind } => {
                let (word, value) = mem_read(memory_source, address as u64, kind.num_bytes());
                tracer.trace_ram_read(address as u64 - address as u64 % 4, word);
                proof {
                    let event = TraceEvent::RamRead {
                        address: memory::word_address(address as u64),
                        value: word,
                    };
                    abstractions::lemma_observe_push::<Config, TR>(
                        old(tracer).model(),
                        seen,
                        event,
                    );
                    seen = seen.push(event);
                }
                self.finish_write(
                    rd,
                    kind.extend(value),
                    tracer,
                    Ghost(old(tracer).model()),
                    Ghost(seen),
                );
            },
            Action::Store { address, length } => {
                let (old_value, value) = mem_write(
                    memory_source,
                    address as u64,
                    rs2_value,
                    length,
                );
                tracer.trace_ram_read_write(
                    address as u64 - address as u64 % 4,
                    old_value,
                    value,
                );
                proof {
                    abstractions::lemma_observe_push::<Config, TR>(
                        old(tracer).model(),
                        seen,
                        TraceEvent::RamReadWrite {
                            address: memory::word_address(address as u64),
                            old_value,
                            value,
                        },
                    );
                }
            },
            Action::Csr { number } => {
                if number == NON_DETERMINISM_CSR {
                    let value: u32 = if ND::SHOULD_MOCK_READS_BEFORE_WRITES && rd == 0 {
                        0
                    } else {
                        non_determinism_source.read()
                    };
                    tracer.trace_non_determinism_read(value);
                    if !(ND::SHOULD_IGNORE_WRITES_AFTER_READS && rs1 == 0) {
                        non_determinism_source.write_with_memory_access(
                            &*memory_source,
                            rs1_value,
                        );
                    }
                    tracer.trace_non_determinism_write(rs1_value);
                    proof {
                        let read = TraceEvent::NonDeterminismRead { value };
                        let write = TraceEvent::NonDeterminismWrite { value: rs1_value };
                        abstractions::lemma_observe_push::<Config, TR>(
                            old(tracer).model(),
                            seen,
                            read,
                        );
                        abstractions::lemma_observe_push::<Config, TR>(
                            old(tracer).model(),
                            seen.push(read),
                            write,
                        );
                        seen = seen.push(read).push(write);
                        assert(seen =~= seq![read, write]);
                    }
                    self.finish_write(
                        rd,
                        value,
                        tracer,
                        Ghost(old(tracer).model()),
                        Ghost(seen),
                    );
                } else if number == MARKER_CSR {
                    self.finish_write(rd, 0, tracer, Ghost(old(tracer).model()), Ghost(seen));
                } else {
                    let ghost e = CSR::effect(
                        old(csr_processor).model(),
                        number as u16,
                        old(self)@,
                        old(memory_source).words(),
                        old(memory_source).writable(),
                    )->0;
                    csr_processor.process_write(
                        self,
                        number as u16,
                        memory_source,
                        non_determinism_source,
                        tracer,
                    );
                    self.finish_write(
                        rd,
                        0,
                        tracer,
                        Ghost(old(tracer).model()),
                        Ghost(e.events),
                    );
                }
            },
            Action::Nothing => {},
        }
    }

    /// Writes the destination register and traces the write.
    fn finish_write<TR: Tracer<Config>>(
        &mut self,
        rd: u32,
        value: u32,
        tracer: &mut TR,
        Ghost(start): Ghost<TR::Model>,
        Ghost(seen): Ghost<Seq<TraceEvent>>,
    )
        requires
            rd < 32,
            old(tracer).model() == abstractions::observe_all::<Config, TR>(start, seen),
        ensures
            final(self)@ == old(self)@.with_register(rd as int, value),
            final(tracer).model() == abstractions::observe_all::<Config, TR>(
                start,
                seen.push(
                    TraceEvent::RdWrite { index: rd, old_value: old(self)@.regs[rd as int], value },
                ),
            ),
    {
        let existing = self.set_register(rd, value);
        tracer.trace_rd_write(rd, existing, value);
        proof {
            abstractions::lemma_observe_push::<Config, TR>(
                start,
                seen,
                TraceEvent::RdWrite { index: rd, old_value: existing, value },
            );
        }
    }
}

/// Decides whether an access is naturally aligned.
fn aligned(address: u64, length: u32) -> (r: bool)
    ensures
        r == memory::is_aligned_access(address, length),
{
    length == 1 || length == 2 && address % 2 == 0 || length == 4 && address % 4 == 0
}

impl<Config: MachineConfig> RiscV32StateForUnrolledProver<Config> {
    /// Runs one cycle, if it can be run, and tells whether it left the program counter in place.
    /// A cycle that faults changes nothing.
    pub fn try_cycle<
        M: MemorySource,
        TR: Tracer<Config>,
        ND: NonDeterminismCSRSource<M>,
        CSR: DelegationCSRProcessor,
    >(
        &mut self,
        memory_source: &mut M,
        tracer: &mut TR,
        non_determinism_source: &mut ND,
        csr_processor: &mut CSR,
    ) -> (r: Result<bool, CycleFault>)
        ensures
            match step::<Config, M, ND, CSR>(
                world_of(
                    *old(self),
                    *old(memory_source),
                    *old(non_determinism_source),
                    *old(csr_processor),
                ),
            ) {
                Ok(e) => {
                    &&& r == Ok::<bool, CycleFault>(e.world.cpu.pc == old(self)@.pc)
                    &&& world_of(
                        *final(self),
                        *final(memory_source),
                        *final(non_determinism_source),
                        *final(csr_processor),
                    ) == e.world
                    &&& final(tracer).model() == abstractions::observe_all::<Config, TR>(
                        old(tracer).model(),
                        e.events,
                    )
                },
                Err(fault) => {
                    &&& r == Err::<bool, CycleFault>(fault)
                    &&& *final(self) == *old(self)
                    &&& *final(memory_source) == *old(memory_source)
                    &&& *final(non_determinism_source) == *old(non_determinism_source)
                    &&& *final(csr_processor) == *old(csr_processor)
                    &&& *final(tracer) == *old(tracer)
                },
            },
    {
        let pc: u32 = self.observable.pc;
        if pc % 4 != 0 || !memory_source.can_read(pc as u64) {
            return Err(CycleFault::Fetch { pc });
        }
        let opcode: u32 = self.decoder_step(memory_source);
        let rd: u32 = get_rd_bits(opcode) as u32;
        let rs1: u32 = get_formal_rs1_bits(opcode) as u32;
        let rs2: u32 = get_formal_rs2_bits(opcode) as u32;
        let is_load = get_opcode_bits(opcode) == OPCODE_LOAD;
        let rs1_value: u32 = self.get_register(rs1);
        let rs2_value: u32 = if is_load {
            0
        } else {
            self.get_register(rs2)
        };
        let action = match execute::<Config>(opcode, pc, rs1_value, rs2_value) {
            Err(fault) => {
                return Err(fault);
            },
            Ok(action) => action,
        };
        match self.examine(
            action,
            rd,
            rs1,
            rs1_value,
            rs2_value,
            memory_source,
            non_determinism_source,
            csr_processor,
        ) {
            Err(fault) => {
                return Err(fault);
            },
            Ok(_) => {},
        }

        let ghost cpu = self@;
        let ghost start = tracer.model();
        tracer.at_cycle_start_ext(&*self);
        tracer.trace_rs1_read(rs1, rs1_value);
        if !is_load {
            tracer.trace_rs2_read(rs2, rs2_value);
        }
        proof {
            let started = TraceEvent::CycleStart { cpu };
            let first = TraceEvent::Rs1Read { index: rs1, value: rs1_value };
            let second = TraceEvent::Rs2Read { index: rs2, value: rs2_value };
            abstractions::lemma_observe_push::<Config, TR>(start, seq![], started);
            abstractions::lemma_observe_push::<Config, TR>(start, seq![started], first);
            abstractions::lemma_observe_push::<Config, TR>(start, seq![started, first], second);
            assert(seq![started] =~= Seq::empty().push(started));
            assert(seq![started, first] =~= seq![started].push(first));
            assert(tracer.model() == abstractions::observe_all::<Config, TR>(
                start,
                opening_events(cpu, opcode),
            ));
        }
        let ghost opened = tracer.model();

        self.observable.pc = pc.wrapping_add(4);
        assert(self@ == cpu.with_pc(bits::wrap32(cpu.pc + 4)));
        let ghost e = perform::<Config, M, ND, CSR>(
            world_of(*self, *memory_source, *non_determinism_source, *csr_processor),
            action,
            rd as int,
            rs1 as int,
            rs1_value,
            rs2_value,
        )->Ok_0;
        self.commit(
            action,
            rd,
            rs1,
            rs1_value,
            rs2_value,
            memory_source,
            tracer,
            non_determinism_source,
            csr_processor,
        );
        tracer.at_cycle_end_ext(&*self);
        proof {
            abstractions::lemma_observe_concat::<Config, TR>(
                start,
                opening_events(cpu, opcode),
                e.events,
            );
            abstractions::lemma_observe_push::<Config, TR>(
                start,
                opening_events(cpu, opcode) + e.events,
                TraceEvent::CycleEnd { cpu: self@ },
            );
        }
        Ok(self.observable.pc == pc)
    }

    /// Runs one cycle and tells whether it left the program counter in place, which is how a
    /// program ends.
    pub fn cycle<
        M: MemorySource,
        TR: Tracer<Config>,
        ND: NonDeterminismCSRSource<M>,
        CSR: DelegationCSRProcessor,
    >(
        &mut self,
        memory_source: &mut M,
        tracer: &mut TR,
        non_determinism_source: &mut ND,
        csr_processor: &mut CSR,
    ) -> (r: bool)
        requires
            step::<Config, M, ND, CSR>(
                world_of(
                    *old(self),
                    *old(memory_source),
                    *old(non_determinism_source),
                    *old(csr_processor),
                ),
            ) is Ok,
        ensures
            ({
                let e = step::<Config, M, ND, CSR>(
                    world_of(
                        *old(self),
                        *old(memory_source),
                        *old(non_determinism_source),
                        *old(csr_processor),
                    ),
                )->Ok_0;
                &&& r == (e.world.cpu.pc == old(self)@.pc)
                &&& world_of(
                    *final(self),
                    *final(memory_source),
                    *final(non_determinism_source),
                    *final(csr_processor),
                ) == e.world
                &&& final(tracer).model() == abstractions::observe_all::<Config, TR>(
                    old(tracer).model(),
                    e.events,
                )
            }),
    {
        match self.try_cycle(memory_source, tracer, non_determinism_source, csr_processor) {
            Ok(finished) => finished,
            Err(_) => false,
        }
    }
}

} // verus!
